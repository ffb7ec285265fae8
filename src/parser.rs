//! The parser: recursive descent over the token sequence with an explicit
//! cursor, building a value tree; and the s-expression printer of that tree.
use vstd::prelude::*;
use vstd::string::*;
use crate::lexer::{Token, TokenModel, describe_token, models};

verus! {

/// A parsed JSON value. A dictionary keeps one entry per key, in the order
/// in which keys first appeared; a later entry for a key replaces the value.
/// Numbers keep the literal text that the lexer accepted.
#[derive(Debug, PartialEq)]
pub enum Value {
    Dict(Vec<(String, Value)>),
    List(Vec<Value>),
    Bool(bool),
    Str(String),
    Number(String),
    Null,
}

/// The mathematical form of a value.
pub enum JsonModel {
    Dict(Seq<(Seq<char>, JsonModel)>),
    List(Seq<JsonModel>),
    Bool(bool),
    Str(Seq<char>),
    Number(Seq<char>),
    Null,
}

impl Value {
    pub open spec fn model(&self) -> JsonModel
        decreases self,
    {
        match self {
            Value::Dict(d) => JsonModel::Dict(
                Seq::new(
                    d.len() as nat,
                    |i: int|
                        if 0 <= i < d.len() {
                            (d[i].0@, d[i].1.model())
                        } else {
                            (Seq::empty(), JsonModel::Null)
                        },
                ),
            ),
            Value::List(l) => JsonModel::List(
                Seq::new(
                    l.len() as nat,
                    |i: int| if 0 <= i < l.len() { l[i].model() } else { JsonModel::Null },
                ),
            ),
            Value::Bool(b) => JsonModel::Bool(*b),
            Value::Str(s) => JsonModel::Str(s@),
            Value::Number(s) => JsonModel::Number(s@),
            Value::Null => JsonModel::Null,
        }
    }
}

pub open spec fn value_models(l: Seq<Value>) -> Seq<JsonModel> {
    l.map_values(|v: Value| v.model())
}

pub open spec fn entry_models(d: Seq<(String, Value)>) -> Seq<(Seq<char>, JsonModel)> {
    d.map_values(|e: (String, Value)| (e.0@, e.1.model()))
}

/// The first position at or after `j` whose key is `k`.
pub open spec fn key_pos(d: Seq<(Seq<char>, JsonModel)>, k: Seq<char>, j: int) -> Option<int>
    decreases d.len() - j,
{
    if !(0 <= j < d.len()) {
        None
    } else if d[j].0 == k {
        Some(j)
    } else {
        key_pos(d, k, j + 1)
    }
}

/// The entries `d` with `k` bound to `v`: the entry for `k` is replaced
/// where there is one, else the pair is added at the end.
pub open spec fn dict_insert(d: Seq<(Seq<char>, JsonModel)>, k: Seq<char>, v: JsonModel) -> Seq<(Seq<char>, JsonModel)> {
    match key_pos(d, k, 0) {
        Some(p) => d.update(p, (k, v)),
        None => d.push((k, v)),
    }
}

/// The value bound to `k` in `d`.
pub open spec fn dict_get(d: Seq<(Seq<char>, JsonModel)>, k: Seq<char>) -> Option<JsonModel> {
    match key_pos(d, k, 0) {
        Some(p) => Some(d[p].1),
        None => None,
    }
}

/// No key occurs twice.
pub open spec fn keys_unique(d: Seq<(Seq<char>, JsonModel)>) -> bool {
    forall|a: int, b: int| 0 <= a < b < d.len() ==> d[a].0 != d[b].0
}

/// The token that the parser wanted where it failed.
pub enum Wanted {
    Value,
    Colon,
    RightBrace,
    RightBracket,
    Eof,
}

/// A parse failure at a token position.
pub enum ParseFault {
    UnexpectedToken(int, Wanted),
    InvalidKey(int),
}

/// A parse error with its human-readable message.
#[derive(Debug)]
pub enum ParseError {
    UnexpectedToken(String),
    InvalidKey(String),
}

pub open spec fn describe_at(t: Seq<TokenModel>, p: int) -> Seq<char> {
    if 0 <= p < t.len() { describe_token(t[p]) } else { Seq::empty() }
}

/// The message of a failure in the tokens `t`.
pub open spec fn parse_fault_message(t: Seq<TokenModel>, f: ParseFault) -> Seq<char> {
    match f {
        ParseFault::UnexpectedToken(p, w) => match w {
            Wanted::Value => "Unexpected token "@ + describe_at(t, p),
            Wanted::Colon => "Expected ':', got "@ + describe_at(t, p),
            Wanted::RightBrace => "Expected '}', got "@ + describe_at(t, p),
            Wanted::RightBracket => "Expected ']', got "@ + describe_at(t, p),
            Wanted::Eof => "Expected EOF, got "@ + describe_at(t, p),
        },
        ParseFault::InvalidKey(p) => "Expected string for key, got "@ + describe_at(t, p),
    }
}

impl ParseError {
    /// Whether this error is the failure `f` in the tokens `t`, with its message.
    pub open spec fn is_fault(&self, t: Seq<TokenModel>, f: ParseFault) -> bool {
        match (self, f) {
            (ParseError::UnexpectedToken(m), ParseFault::UnexpectedToken(_, _)) => m@
                == parse_fault_message(t, f),
            (ParseError::InvalidKey(m), ParseFault::InvalidKey(_)) => m@ == parse_fault_message(t, f),
            _ => false,
        }
    }
}

pub open spec fn at(t: Seq<TokenModel>, p: int) -> TokenModel {
    if 0 <= p < t.len() { t[p] } else { TokenModel::EOF(0) }
}

/// `value = dict | list | string | number | "true" | "false" | "null"`:
/// the value that starts at `i` and the position of its last token.
pub open spec fn value_at(t: Seq<TokenModel>, i: int) -> Result<(JsonModel, int), ParseFault>
    decreases t.len() - i, 2int,
{
    if !(0 <= i < t.len()) {
        Err(ParseFault::UnexpectedToken(i, Wanted::Value))
    } else {
        match t[i] {
            TokenModel::Str(s, _) => Ok((JsonModel::Str(s), i)),
            TokenModel::Number(s, _) => Ok((JsonModel::Number(s), i)),
            TokenModel::Bool(b, _) => Ok((JsonModel::Bool(b), i)),
            TokenModel::Null(_) => Ok((JsonModel::Null, i)),
            TokenModel::LeftBracket(_) => {
                if at(t, i + 1) is RightBracket {
                    Ok((JsonModel::List(Seq::empty()), i + 1))
                } else {
                    match elements_from(t, i, Seq::empty()) {
                        Ok(r) => Ok((JsonModel::List(r.0), r.1)),
                        Err(f) => Err(f),
                    }
                }
            },
            TokenModel::LeftBrace(_) => {
                if at(t, i + 1) is RightBrace {
                    Ok((JsonModel::Dict(Seq::empty()), i + 1))
                } else {
                    match pairs_from(t, i, Seq::empty()) {
                        Ok(r) => Ok((JsonModel::Dict(r.0), r.1)),
                        Err(f) => Err(f),
                    }
                }
            },
            _ => Err(ParseFault::UnexpectedToken(i, Wanted::Value)),
        }
    }
}

/// `("[" | ",") value` repeated until `]`, from the separator at `i`, after
/// the elements `acc`: the elements and the position of the `]`.
pub open spec fn elements_from(t: Seq<TokenModel>, i: int, acc: Seq<JsonModel>) -> Result<(Seq<JsonModel>, int), ParseFault>
    decreases t.len() - i, 1int,
{
    if !(0 <= i < t.len()) {
        Err(ParseFault::UnexpectedToken(i, Wanted::Value))
    } else {
        match value_at(t, i + 1) {
            Err(f) => Err(f),
            Ok(r) => {
                let k = r.1 + 1;
                if k <= i {
                    Err(ParseFault::UnexpectedToken(k, Wanted::Value))
                } else if at(t, k) is Comma {
                    elements_from(t, k, acc.push(r.0))
                } else if at(t, k) is RightBracket {
                    Ok((acc.push(r.0), k))
                } else {
                    Err(ParseFault::UnexpectedToken(k, Wanted::RightBracket))
                }
            },
        }
    }
}

/// `("{" | ",") string ":" value` repeated until `}`, from the separator
/// at `i`, after the entries `acc`: the entries and the position of the `}`.
pub open spec fn pairs_from(
    t: Seq<TokenModel>,
    i: int,
    acc: Seq<(Seq<char>, JsonModel)>,
) -> Result<(Seq<(Seq<char>, JsonModel)>, int), ParseFault>
    decreases t.len() - i, 1int,
{
    if !(0 <= i < t.len()) {
        Err(ParseFault::UnexpectedToken(i, Wanted::Value))
    } else if !(at(t, i + 1) is Str) {
        Err(ParseFault::InvalidKey(i + 1))
    } else if !(at(t, i + 2) is Colon) {
        Err(ParseFault::UnexpectedToken(i + 2, Wanted::Colon))
    } else {
        let key = at(t, i + 1)->Str_0;
        match value_at(t, i + 3) {
            Err(f) => Err(f),
            Ok(r) => {
                let k = r.1 + 1;
                let entries = dict_insert(acc, key, r.0);
                if k <= i {
                    Err(ParseFault::UnexpectedToken(k, Wanted::Value))
                } else if at(t, k) is Comma {
                    pairs_from(t, k, entries)
                } else if at(t, k) is RightBrace {
                    Ok((entries, k))
                } else {
                    Err(ParseFault::UnexpectedToken(k, Wanted::RightBrace))
                }
            },
        }
    }
}

/// One value followed by the end of input.
pub open spec fn parse_spec(t: Seq<TokenModel>) -> Result<JsonModel, ParseFault> {
    match value_at(t, 0) {
        Err(f) => Err(f),
        Ok(r) => if 0 <= r.1 + 1 < t.len() && t[r.1 + 1] is EOF {
            Ok(r.0)
        } else {
            Err(ParseFault::UnexpectedToken(r.1 + 1, Wanted::Eof))
        },
    }
}

/// The token sequences the parser takes: the lexer's, which end with `EOF`.
pub open spec fn ends_with_eof(t: Seq<TokenModel>) -> bool {
    t.len() > 0 && t.last() is EOF
}

proof fn lemma_list_model(l: Vec<Value>)
    ensures
        Value::List(l).model() == JsonModel::List(value_models(l@)),
{
    assert(Value::List(l).model()->List_0 =~= value_models(l@));
}

proof fn lemma_dict_model(d: Vec<(String, Value)>)
    ensures
        Value::Dict(d).model() == JsonModel::Dict(entry_models(d@)),
{
    assert(Value::Dict(d).model()->Dict_0 =~= entry_models(d@));
}

/// Binds `k` to `v` in the entries `d`.
fn insert_entry(d: &mut Vec<(String, Value)>, k: String, v: Value)
    ensures
        entry_models(final(d)@) == dict_insert(entry_models(old(d)@), k@, v.model()),
{
    let ghost m = entry_models(d@);
    let mut j: usize = 0;
    while j < d.len()
        invariant
            j <= d.len(),
            m == entry_models(d@),
            d@ == old(d)@,
            key_pos(m, k@, j as int) == key_pos(m, k@, 0),
        decreases d.len() - j,
    {
        if d[j].0 == k {
            let ghost e = (k@, v.model());
            d.set(j, (k, v));
            assert(entry_models(d@) =~= m.update(j as int, e));
            return;
        }
        j = j + 1;
    }
    let ghost e = (k@, v.model());
    d.push((k, v));
    assert(entry_models(d@) =~= m.push(e));
}

/// The parser over one token sequence.
pub struct Parser {
    tokens: Vec<Token>,
}

impl Parser {
    /// The tokens being parsed, as models.
    pub closed spec fn token_models(&self) -> Seq<TokenModel> {
        models(self.tokens@)
    }

    /// A parser over `tokens`, with its cursor at the first.
    pub fn new(tokens: Vec<Token>) -> (r: Parser)
        ensures
            r.token_models() == models(tokens@),
    {
        Parser { tokens }
    }

    /// `head` followed by the display form of the token at `p`.
    fn message(&self, head: &str, p: usize) -> (m: String)
        requires
            p < self.tokens@.len(),
        ensures
            m@ == head@ + describe_at(self.token_models(), p as int),
    {
        let mut m = String::new();
        m.append(head);
        let d = self.tokens[p].describe();
        m.append(d.as_str());
        m
    }

    /// Parses the value that starts at `i`: the value and the position of
    /// its last token.
    fn parse_value(&self, i: usize) -> (r: Result<(Value, usize), ParseError>)
        requires
            ends_with_eof(self.token_models()),
            i < self.tokens@.len(),
        ensures
            match value_at(self.token_models(), i as int) {
                Ok(m) => r matches Ok(x) && x.0.model() == m.0 && x.1 as int == m.1,
                Err(f) => r matches Err(e) && e.is_fault(self.token_models(), f),
            },
            r matches Ok(x) ==> i <= x.1 < self.tokens@.len() - 1,
        decreases self.tokens@.len() - i, 2int,
    {
        let ghost t = self.token_models();
        let n = self.tokens.len();
        assert(t[i as int] == self.tokens@[i as int].model());
        assert(t[t.len() - 1] == self.tokens@[t.len() - 1].model());
        match &self.tokens[i] {
            Token::Str(s, _) => Ok((Value::Str(s.clone()), i)),
            Token::Number(s, _) => Ok((Value::Number(s.clone()), i)),
            Token::Bool(b, _) => Ok((Value::Bool(*b), i)),
            Token::Null(_) => Ok((Value::Null, i)),
            Token::LeftBracket(_) => {
                assert(t[i + 1] == self.tokens@[i + 1].model());
                if matches!(self.tokens[i + 1], Token::RightBracket(_)) {
                    let r = Value::List(Vec::new());
                    assert(r.model()->List_0 =~= Seq::<JsonModel>::empty());
                    Ok((r, i + 1))
                } else {
                    match self.parse_list(i) {
                        Ok((l, k)) => {
                            proof { lemma_list_model(l); }
                            Ok((Value::List(l), k))
                        },
                        Err(e) => Err(e),
                    }
                }
            },
            Token::LeftBrace(_) => {
                assert(t[i + 1] == self.tokens@[i + 1].model());
                if matches!(self.tokens[i + 1], Token::RightBrace(_)) {
                    let r = Value::Dict(Vec::new());
                    assert(r.model()->Dict_0 =~= Seq::<(Seq<char>, JsonModel)>::empty());
                    Ok((r, i + 1))
                } else {
                    match self.parse_dict(i) {
                        Ok((d, k)) => {
                            proof { lemma_dict_model(d); }
                            Ok((Value::Dict(d), k))
                        },
                        Err(e) => Err(e),
                    }
                }
            },
            _ => Err(ParseError::UnexpectedToken(self.message("Unexpected token ", i))),
        }
    }

    /// `list = "[" value ("," value)* "]"`, from the `[` at `i`: the
    /// elements and the position of the `]`.
    fn parse_list(&self, i: usize) -> (r: Result<(Vec<Value>, usize), ParseError>)
        requires
            ends_with_eof(self.token_models()),
            i < self.tokens@.len() - 1,
        ensures
            match elements_from(self.token_models(), i as int, Seq::empty()) {
                Ok(m) => r matches Ok(x) && value_models(x.0@) == m.0 && x.1 as int == m.1,
                Err(f) => r matches Err(e) && e.is_fault(self.token_models(), f),
            },
            r matches Ok(x) ==> i < x.1 < self.tokens@.len() - 1,
        decreases self.tokens@.len() - i, 1int,
    {
        let ghost t = self.token_models();
        let n = self.tokens.len();
        let mut items: Vec<Value> = Vec::new();
        let mut p: usize = i;
        assert(value_models(items@) =~= Seq::empty());
        loop
            invariant
                t == self.token_models(),
                n == self.tokens@.len(),
                ends_with_eof(t),
                i <= p < self.tokens@.len() - 1,
                elements_from(t, p as int, value_models(items@)) == elements_from(t, i as int, Seq::empty()),
            decreases self.tokens@.len() - p,
        {
            match self.parse_value(p + 1) {
                Err(e) => return Err(e),
                Ok((v, j)) => {
                    let k = j + 1;
                    let ghost before = value_models(items@);
                    items.push(v);
                    assert(value_models(items@) =~= before.push(v.model()));
                    assert(t[k as int] == self.tokens@[k as int].model());
                    if matches!(self.tokens[k], Token::Comma(_)) {
                        p = k;
                    } else if matches!(self.tokens[k], Token::RightBracket(_)) {
                        return Ok((items, k));
                    } else {
                        return Err(ParseError::UnexpectedToken(self.message("Expected ']', got ", k)));
                    }
                },
            }
        }
    }

    /// `dict = "{" pair ("," pair)* "}"` with `pair = string ":" value`,
    /// from the `{` at `i`: the entries and the position of the `}`.
    fn parse_dict(&self, i: usize) -> (r: Result<(Vec<(String, Value)>, usize), ParseError>)
        requires
            ends_with_eof(self.token_models()),
            i < self.tokens@.len() - 1,
        ensures
            match pairs_from(self.token_models(), i as int, Seq::empty()) {
                Ok(m) => r matches Ok(x) && entry_models(x.0@) == m.0 && x.1 as int == m.1,
                Err(f) => r matches Err(e) && e.is_fault(self.token_models(), f),
            },
            r matches Ok(x) ==> i < x.1 < self.tokens@.len() - 1,
        decreases self.tokens@.len() - i, 1int,
    {
        let ghost t = self.token_models();
        let n = self.tokens.len();
        let mut entries: Vec<(String, Value)> = Vec::new();
        let mut p: usize = i;
        assert(entry_models(entries@) =~= Seq::empty());
        loop
            invariant
                t == self.token_models(),
                n == self.tokens@.len(),
                ends_with_eof(t),
                i <= p < self.tokens@.len() - 1,
                pairs_from(t, p as int, entry_models(entries@)) == pairs_from(t, i as int, Seq::empty()),
            decreases self.tokens@.len() - p,
        {
            assert(t[p + 1] == self.tokens@[p + 1].model());
            assert(t[t.len() - 1] == self.tokens@[t.len() - 1].model());
            let key = match &self.tokens[p + 1] {
                Token::Str(s, _) => s.clone(),
                _ => {
                    return Err(ParseError::InvalidKey(self.message("Expected string for key, got ", p + 1)));
                },
            };
            assert(t[p + 2] == self.tokens@[p + 2].model());
            if !matches!(self.tokens[p + 2], Token::Colon(_)) {
                return Err(ParseError::UnexpectedToken(self.message("Expected ':', got ", p + 2)));
            }
            match self.parse_value(p + 3) {
                Err(e) => return Err(e),
                Ok((v, j)) => {
                    let k = j + 1;
                    insert_entry(&mut entries, key, v);
                    assert(t[k as int] == self.tokens@[k as int].model());
                    if matches!(self.tokens[k], Token::Comma(_)) {
                        p = k;
                    } else if matches!(self.tokens[k], Token::RightBrace(_)) {
                        return Ok((entries, k));
                    } else {
                        return Err(ParseError::UnexpectedToken(self.message("Expected '}', got ", k)));
                    }
                },
            }
        }
    }

    /// Parses the whole token sequence as one value followed by `EOF`.
    pub fn parse(&self) -> (r: Result<Value, ParseError>)
        requires
            ends_with_eof(self.token_models()),
        ensures
            match parse_spec(self.token_models()) {
                Ok(m) => r matches Ok(v) && v.model() == m,
                Err(f) => r matches Err(e) && e.is_fault(self.token_models(), f),
            },
    {
        let ghost t = self.token_models();
        let n = self.tokens.len();
        assert(t[0] == self.tokens@[0].model());
        match self.parse_value(0) {
            Err(e) => Err(e),
            Ok((v, j)) => {
                assert(t[j + 1] == self.tokens@[j + 1].model());
                if matches!(self.tokens[j + 1], Token::EOF(_)) {
                    Ok(v)
                } else {
                    Err(ParseError::UnexpectedToken(self.message("Expected EOF, got ", j + 1)))
                }
            },
        }
    }
}

/// Two spaces for each level of nesting.
pub open spec fn indent_text(n: nat) -> Seq<char>
    decreases n,
{
    if n == 0 { Seq::empty() } else { indent_text((n - 1) as nat) + "  "@ }
}

/// The s-expression of `v` at nesting level `n`: a dictionary is
/// `(` then one `(key value)` line per entry, a list `(` then one line per
/// element, each closed by `)` on a line of its own; a string is quoted,
/// other atoms are written as they are.
pub open spec fn render(v: JsonModel, n: nat) -> Seq<char>
    decreases v, 0nat,
{
    match v {
        JsonModel::Dict(d) => "("@ + render_entries(d, n, d.len()) + "\n"@ + indent_text(n) + ")"@,
        JsonModel::List(l) => "("@ + render_items(l, n, l.len()) + "\n"@ + indent_text(n) + ")"@,
        JsonModel::Str(s) => "\""@ + s + "\""@,
        JsonModel::Number(w) => w,
        JsonModel::Bool(b) => if b { "true"@ } else { "false"@ },
        JsonModel::Null => "null"@,
    }
}

/// The lines of the first `k` elements of a list at level `n`.
pub open spec fn render_items(l: Seq<JsonModel>, n: nat, k: nat) -> Seq<char>
    decreases l, k,
{
    if k == 0 || k > l.len() {
        Seq::empty()
    } else {
        render_items(l, n, (k - 1) as nat) + "\n"@ + indent_text(n) + "  "@ + render(l[k - 1], n + 1)
    }
}

/// The lines of the first `k` entries of a dictionary at level `n`.
pub open spec fn render_entries(d: Seq<(Seq<char>, JsonModel)>, n: nat, k: nat) -> Seq<char>
    decreases d, k,
{
    if k == 0 || k > d.len() {
        Seq::empty()
    } else {
        render_entries(d, n, (k - 1) as nat) + "\n"@ + indent_text(n) + "  ("@ + d[k - 1].0 + " "@
            + render(d[k - 1].1, n + 1) + ")"@
    }
}

fn render_at(v: &Value, ind: &String, n: Ghost<nat>) -> (r: String)
    requires
        ind@ == indent_text(n@),
    ensures
        r@ == render(v.model(), n@),
    decreases v, 1nat,
{
    match v {
        Value::Dict(d) => {
            proof { lemma_dict_model(*d); }
            let body = render_dict_lines(d, ind, Ghost(n@));
            let mut out = String::new();
            out.append("(");
            out.append(body.as_str());
            out.append("\n");
            out.append(ind.as_str());
            out.append(")");
            out
        },
        Value::List(l) => {
            proof { lemma_list_model(*l); }
            let body = render_list_lines(l, ind, Ghost(n@));
            let mut out = String::new();
            out.append("(");
            out.append(body.as_str());
            out.append("\n");
            out.append(ind.as_str());
            out.append(")");
            out
        },
        Value::Str(s) => {
            let mut out = String::new();
            out.append("\"");
            out.append(s.as_str());
            out.append("\"");
            out
        },
        Value::Number(w) => w.clone(),
        Value::Bool(b) => {
            if *b {
                String::from_str("true")
            } else {
                String::from_str("false")
            }
        },
        Value::Null => String::from_str("null"),
    }
}

fn render_dict_lines(d: &Vec<(String, Value)>, ind: &String, n: Ghost<nat>) -> (r: String)
    requires
        ind@ == indent_text(n@),
    ensures
        r@ == render_entries(entry_models(d@), n@, d@.len()),
    decreases d, 0nat,
{
    let ghost m = entry_models(d@);
    let mut inner = ind.clone();
    inner.append("  ");
    let mut out = String::new();
    let mut k: usize = 0;
    while k < d.len()
        invariant
            k <= d.len(),
            m == entry_models(d@),
            ind@ == indent_text(n@),
            inner@ == indent_text(n@ + 1),
            out@ == render_entries(m, n@, k as nat),
        decreases d.len() - k,
    {
        proof {
            vstd::std_specs::vec::axiom_vec_index_decreases(*d, k as int);
            assert(decreases_to!(d[k as int] => d[k as int].1));
        }
        let child = render_at(&d[k].1, &inner, Ghost(n@ + 1));
        let ghost before = out@;
        out.append("\n");
        out.append(ind.as_str());
        out.append("  (");
        out.append(d[k].0.as_str());
        out.append(" ");
        out.append(child.as_str());
        out.append(")");
        assert(out@ =~= before + "\n"@ + indent_text(n@) + "  ("@ + m[k as int].0 + " "@ + render(
            m[k as int].1,
            n@ + 1,
        ) + ")"@);
        k = k + 1;
    }
    out
}

fn render_list_lines(l: &Vec<Value>, ind: &String, n: Ghost<nat>) -> (r: String)
    requires
        ind@ == indent_text(n@),
    ensures
        r@ == render_items(value_models(l@), n@, l@.len()),
    decreases l, 0nat,
{
    let ghost m = value_models(l@);
    let mut inner = ind.clone();
    inner.append("  ");
    let mut out = String::new();
    let mut k: usize = 0;
    while k < l.len()
        invariant
            k <= l.len(),
            m == value_models(l@),
            ind@ == indent_text(n@),
            inner@ == indent_text(n@ + 1),
            out@ == render_items(m, n@, k as nat),
        decreases l.len() - k,
    {
        proof {
            vstd::std_specs::vec::axiom_vec_index_decreases(*l, k as int);
        }
        let child = render_at(&l[k], &inner, Ghost(n@ + 1));
        let ghost before = out@;
        out.append("\n");
        out.append(ind.as_str());
        out.append("  ");
        out.append(child.as_str());
        assert(out@ =~= before + "\n"@ + indent_text(n@) + "  "@ + render(m[k as int], n@ + 1));
        k = k + 1;
    }
    out
}

/// The s-expression form of `value`, at nesting level zero.
pub fn pretty_print(value: &Value) -> (r: String)
    ensures
        r@ == render(value.model(), 0),
{
    render_at(value, &String::new(), Ghost(0))
}

/// A successful parse of tokens that end with their only `EOF` consumes
/// every token before it: the value ends right before the `EOF`.
pub proof fn lemma_parse_consumes_all(t: Seq<TokenModel>)
    requires
        ends_with_eof(t),
        crate::lexer::eof_free(t.drop_last()),
    ensures
        parse_spec(t) is Ok ==> (value_at(t, 0) matches Ok(r) && r.1 == t.len() - 2),
{
    if let Ok(r) = value_at(t, 0) {
        if 0 <= r.1 + 1 < t.len() - 1 {
            assert(t.drop_last()[r.1 + 1] == t[r.1 + 1]);
        }
    }
}

/// Binding a key and then looking it up gives the value bound last; other
/// keys keep their values.
pub proof fn lemma_last_write_wins(d: Seq<(Seq<char>, JsonModel)>, k: Seq<char>, v: JsonModel, other: Seq<char>)
    requires
        keys_unique(d),
    ensures
        dict_get(dict_insert(d, k, v), k) == Some(v),
        other != k ==> dict_get(dict_insert(d, k, v), other) == dict_get(d, other),
        keys_unique(dict_insert(d, k, v)),
{
    lemma_key_pos(d, k, 0);
    lemma_key_pos(d, other, 0);
    let e = dict_insert(d, k, v);
    lemma_key_pos(e, k, 0);
    lemma_key_pos(e, other, 0);
    match key_pos(d, k, 0) {
        Some(p) => {
            assert(forall|a: int| 0 <= a < e.len() ==> #[trigger] e[a].0 == d[a].0);
            assert(e[p].0 == k);
            if let Some(q) = key_pos(e, k, 0) {
                if q < p {
                    assert(d[q].0 == k);
                }
            }
            if let Some(q) = key_pos(e, other, 0) {
                if let Some(q2) = key_pos(d, other, 0) {
                    if q < q2 {
                        assert(d[q].0 == other);
                    }
                    if q2 < q {
                        assert(e[q2].0 == other);
                    }
                } else {
                    assert(d[q].0 == other);
                }
            } else if let Some(q2) = key_pos(d, other, 0) {
                assert(e[q2].0 == other);
            }
        },
        None => {
            assert(forall|a: int| 0 <= a < d.len() ==> #[trigger] e[a] == d[a]);
            assert(e[d.len() as int].0 == k);
            if let Some(q) = key_pos(e, other, 0) {
                if let Some(q2) = key_pos(d, other, 0) {
                    if q < q2 {
                        assert(d[q].0 == other);
                    }
                    if q2 < q {
                        assert(e[q2].0 == other);
                    }
                }
            } else if let Some(q2) = key_pos(d, other, 0) {
                assert(e[q2].0 == other);
            }
        },
    }
}

/// `key_pos` finds the first entry from `j` with the key, and only that.
proof fn lemma_key_pos(d: Seq<(Seq<char>, JsonModel)>, k: Seq<char>, j: int)
    requires
        0 <= j,
    ensures
        match key_pos(d, k, j) {
            Some(p) => j <= p < d.len() && d[p].0 == k && forall|a: int| j <= a < p ==> d[a].0 != k,
            None => forall|a: int| j <= a < d.len() ==> d[a].0 != k,
        },
    decreases d.len() - j,
{
    if j < d.len() && d[j].0 != k {
        lemma_key_pos(d, k, j + 1);
    }
}

/// The printed form depends on the tree's content alone: two trees with the
/// same content print the same text, list elements in their order.
pub proof fn lemma_render_depends_on_content(a: Value, b: Value)
    requires
        a.model() == b.model(),
    ensures
        render(a.model(), 0) == render(b.model(), 0),
{
}

/// Every dictionary in the tree has each key once.
pub open spec fn keys_unique_throughout(v: JsonModel) -> bool
    decreases v,
{
    match v {
        JsonModel::Dict(d) => keys_unique(d) && forall|k: int|
            0 <= k < d.len() ==> keys_unique_throughout(#[trigger] d[k].1),
        JsonModel::List(l) => forall|k: int| 0 <= k < l.len() ==> keys_unique_throughout(#[trigger] l[k]),
        _ => true,
    }
}

proof fn lemma_value_keys_unique(t: Seq<TokenModel>, i: int)
    ensures
        value_at(t, i) matches Ok(r) ==> keys_unique_throughout(r.0),
    decreases t.len() - i, 2int,
{
    if 0 <= i < t.len() {
        match t[i] {
            TokenModel::LeftBracket(_) => {
                if !(at(t, i + 1) is RightBracket) {
                    lemma_elements_keys_unique(t, i, Seq::empty());
                }
            },
            TokenModel::LeftBrace(_) => {
                if !(at(t, i + 1) is RightBrace) {
                    lemma_pairs_keys_unique(t, i, Seq::empty());
                }
            },
            _ => {},
        }
    }
}

proof fn lemma_elements_keys_unique(t: Seq<TokenModel>, i: int, acc: Seq<JsonModel>)
    requires
        forall|k: int| 0 <= k < acc.len() ==> keys_unique_throughout(#[trigger] acc[k]),
    ensures
        elements_from(t, i, acc) matches Ok(r) ==> forall|k: int|
            0 <= k < r.0.len() ==> keys_unique_throughout(#[trigger] r.0[k]),
    decreases t.len() - i, 1int,
{
    if 0 <= i < t.len() {
        lemma_value_keys_unique(t, i + 1);
        if let Ok(r) = value_at(t, i + 1) {
            let k = r.1 + 1;
            let next = acc.push(r.0);
            assert forall|a: int| 0 <= a < next.len() implies keys_unique_throughout(#[trigger] next[a]) by {
                if a < acc.len() {
                    assert(next[a] == acc[a]);
                }
            }
            if k > i && at(t, k) is Comma {
                lemma_elements_keys_unique(t, k, next);
            }
        }
    }
}

proof fn lemma_pairs_keys_unique(t: Seq<TokenModel>, i: int, acc: Seq<(Seq<char>, JsonModel)>)
    requires
        keys_unique(acc),
        forall|k: int| 0 <= k < acc.len() ==> keys_unique_throughout(#[trigger] acc[k].1),
    ensures
        pairs_from(t, i, acc) matches Ok(r) ==> keys_unique(r.0) && forall|k: int|
            0 <= k < r.0.len() ==> keys_unique_throughout(#[trigger] r.0[k].1),
    decreases t.len() - i, 1int,
{
    if 0 <= i < t.len() && at(t, i + 1) is Str && at(t, i + 2) is Colon {
        let key = at(t, i + 1)->Str_0;
        lemma_value_keys_unique(t, i + 3);
        if let Ok(r) = value_at(t, i + 3) {
            let k = r.1 + 1;
            let next = dict_insert(acc, key, r.0);
            lemma_last_write_wins(acc, key, r.0, key);
            lemma_key_pos(acc, key, 0);
            assert forall|a: int| 0 <= a < next.len() implies keys_unique_throughout(#[trigger] next[a].1) by {
                match key_pos(acc, key, 0) {
                    Some(p) => {
                        if a != p {
                            assert(next[a] == acc[a]);
                        }
                    },
                    None => {
                        if a < acc.len() {
                            assert(next[a] == acc[a]);
                        }
                    },
                }
            }
            if k > i && at(t, k) is Comma {
                lemma_pairs_keys_unique(t, k, next);
            }
        }
    }
}

/// A parsed tree is a tree of mappings: no dictionary in it holds a key
/// twice, however often the input repeated it.
pub proof fn lemma_parse_keys_unique(t: Seq<TokenModel>)
    ensures
        parse_spec(t) matches Ok(v) ==> keys_unique_throughout(v),
{
    lemma_value_keys_unique(t, 0);
}

} // verus!
