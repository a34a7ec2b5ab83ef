//! The recursive-descent parser: tokens are pulled from the scanner one
//! at a time and reduced into a `JsonValue` tree.
//!
//! The grammar, LL(1) on token kind:
//!
//! ```text
//! VALUE    := String | Number | Bool | Null | OBJECT | ARRAY
//! OBJECT   := '{' '}' | '{' MEMBERS '}'
//! MEMBERS  := member (',' member)*
//! member   := String ':' VALUE
//! ARRAY    := '[' ']' | '[' ELEMENTS ']'
//! ELEMENTS := VALUE (',' VALUE)*
//! ```
//!
//! The spec functions below run the same grammar over the byte sequence
//! and say, for every cursor position, either which value is recognized
//! and where it ends, or which token the parse is rejected at; each
//! parsing method is proved to return exactly that outcome.  A depth
//! counter guards every object or array entry, so a parse that nests
//! deeper than `MAX_NESTING_DEPTH` fails with a dedicated error rather
//! than exhausting the stack.

use crate::json;
use crate::json::{
    JsonValue,
    SpecValue,
    object_view,
    array_view,
    keys_distinct,
    entries_wf,
    elems_wf,
    object_insert,
    lemma_array_view_push,
    lemma_elems_wf_index,
};
use crate::lex::{Lex, Token, TokenKind, SpecToken, SpecTokenKind, spec_token, lemma_token_bounds};
use crate::parse_error::{ParseError, ParseErrorKind};
use vstd::prelude::*;

verus! {

/// The nesting-depth guard: how many levels of objects and arrays a
/// document may open.
pub const MAX_NESTING_DEPTH: u32 = 500;

/// The outcome of running a grammar production at a cursor position:
/// the recognized result and the position after it, or the token the
/// parse is rejected at, or the token that opened one nesting level too
/// many.
pub enum SpecParse<T> {
    Parsed(T, int),
    Rejected(SpecToken),
    TooDeep(SpecToken),
}

/// The VALUE production at `pos`: one token decides which branch is
/// taken; `{` and `[` recurse with one depth level spent.
pub open spec fn spec_parse_value(s: Seq<u8>, pos: int, depth: nat) -> SpecParse<SpecValue>
    decreases s.len() - pos, 1int,
{
    let t = spec_token(s, pos);
    match t.kind {
        SpecTokenKind::String(d) => SpecParse::Parsed(SpecValue::String(d), t.end),
        SpecTokenKind::Number(n) => SpecParse::Parsed(SpecValue::Number(n), t.end),
        SpecTokenKind::Bool(b) => SpecParse::Parsed(SpecValue::Bool(b), t.end),
        SpecTokenKind::Null => SpecParse::Parsed(SpecValue::Null, t.end),
        SpecTokenKind::LeftBrace => if depth == 0 {
            SpecParse::TooDeep(t)
        } else if !(pos < t.end <= s.len()) {
            SpecParse::Rejected(t)
        } else {
            match spec_parse_object(s, t.end, (depth - 1) as nat) {
                SpecParse::Parsed(m, e) => SpecParse::Parsed(SpecValue::Object(m), e),
                SpecParse::Rejected(x) => SpecParse::Rejected(x),
                SpecParse::TooDeep(x) => SpecParse::TooDeep(x),
            }
        },
        SpecTokenKind::LeftBracket => if depth == 0 {
            SpecParse::TooDeep(t)
        } else if !(pos < t.end <= s.len()) {
            SpecParse::Rejected(t)
        } else {
            match spec_parse_array(s, t.end, (depth - 1) as nat) {
                SpecParse::Parsed(a, e) => SpecParse::Parsed(SpecValue::Array(a), e),
                SpecParse::Rejected(x) => SpecParse::Rejected(x),
                SpecParse::TooDeep(x) => SpecParse::TooDeep(x),
            }
        },
        _ => SpecParse::Rejected(t),
    }
}

/// The OBJECT production just after its `{`: an immediate `}` closes
/// the empty object, a string key starts the member list.
pub open spec fn spec_parse_object(s: Seq<u8>, pos: int, depth: nat) -> SpecParse<
    Map<Seq<u8>, SpecValue>,
>
    decreases s.len() - pos, 0int,
{
    let t = spec_token(s, pos);
    match t.kind {
        SpecTokenKind::RightBrace => SpecParse::Parsed(Map::empty(), t.end),
        SpecTokenKind::String(k) => if !(pos < t.end <= s.len()) {
            SpecParse::Rejected(t)
        } else {
            match spec_parse_member_rest(s, t.end, k, depth) {
                SpecParse::Parsed(kv, e) => if !(pos < e <= s.len()) {
                    SpecParse::Rejected(t)
                } else {
                    spec_parse_members(s, e, Map::empty().insert(kv.0, kv.1), depth)
                },
                SpecParse::Rejected(x) => SpecParse::Rejected(x),
                SpecParse::TooDeep(x) => SpecParse::TooDeep(x),
            }
        },
        _ => SpecParse::Rejected(t),
    }
}

/// The rest of a member after its key: a `:` then a VALUE.
pub open spec fn spec_parse_member_rest(s: Seq<u8>, pos: int, k: Seq<u8>, depth: nat) -> SpecParse<
    (Seq<u8>, SpecValue),
>
    decreases s.len() - pos, 0int,
{
    let t = spec_token(s, pos);
    match t.kind {
        SpecTokenKind::Colon => if !(pos < t.end <= s.len()) {
            SpecParse::Rejected(t)
        } else {
            match spec_parse_value(s, t.end, depth) {
                SpecParse::Parsed(v, e) => SpecParse::Parsed((k, v), e),
                SpecParse::Rejected(x) => SpecParse::Rejected(x),
                SpecParse::TooDeep(x) => SpecParse::TooDeep(x),
            }
        },
        _ => SpecParse::Rejected(t),
    }
}

/// The member list after at least one member: `,` continues with the
/// next member (a later member for the same key overwrites the earlier
/// one), `}` closes the object.
pub open spec fn spec_parse_members(
    s: Seq<u8>,
    pos: int,
    m: Map<Seq<u8>, SpecValue>,
    depth: nat,
) -> SpecParse<Map<Seq<u8>, SpecValue>>
    decreases s.len() - pos, 0int,
{
    let t = spec_token(s, pos);
    match t.kind {
        SpecTokenKind::RightBrace => SpecParse::Parsed(m, t.end),
        SpecTokenKind::Comma => if !(pos < t.end <= s.len()) {
            SpecParse::Rejected(t)
        } else {
            let t2 = spec_token(s, t.end);
            match t2.kind {
                SpecTokenKind::String(k) => if !(pos < t2.end <= s.len()) {
                    SpecParse::Rejected(t2)
                } else {
                    match spec_parse_member_rest(s, t2.end, k, depth) {
                        SpecParse::Parsed(kv, e) => if !(pos < e <= s.len()) {
                            SpecParse::Rejected(t2)
                        } else {
                            spec_parse_members(s, e, m.insert(kv.0, kv.1), depth)
                        },
                        SpecParse::Rejected(x) => SpecParse::Rejected(x),
                        SpecParse::TooDeep(x) => SpecParse::TooDeep(x),
                    }
                },
                _ => SpecParse::Rejected(t2),
            }
        },
        _ => SpecParse::Rejected(t),
    }
}

/// The ARRAY production just after its `[`: an immediate `]` closes the
/// empty array, anything else must start a VALUE.
pub open spec fn spec_parse_array(s: Seq<u8>, pos: int, depth: nat) -> SpecParse<Seq<SpecValue>>
    decreases s.len() - pos, 2int,
{
    let t = spec_token(s, pos);
    if t.kind is RightBracket {
        SpecParse::Parsed(Seq::empty(), t.end)
    } else {
        match spec_parse_value(s, pos, depth) {
            SpecParse::Parsed(v, e) => if !(pos < e <= s.len()) {
                SpecParse::Rejected(t)
            } else {
                spec_parse_elements(s, e, seq![v], depth)
            },
            SpecParse::Rejected(x) => SpecParse::Rejected(x),
            SpecParse::TooDeep(x) => SpecParse::TooDeep(x),
        }
    }
}

/// The element list after at least one element: `,` continues with the
/// next VALUE, `]` closes the array.
pub open spec fn spec_parse_elements(
    s: Seq<u8>,
    pos: int,
    elems: Seq<SpecValue>,
    depth: nat,
) -> SpecParse<Seq<SpecValue>>
    decreases s.len() - pos, 0int,
{
    let t = spec_token(s, pos);
    match t.kind {
        SpecTokenKind::RightBracket => SpecParse::Parsed(elems, t.end),
        SpecTokenKind::Comma => if !(pos < t.end <= s.len()) {
            SpecParse::Rejected(t)
        } else {
            match spec_parse_value(s, t.end, depth) {
                SpecParse::Parsed(v, e) => if !(pos < e <= s.len()) {
                    SpecParse::Rejected(t)
                } else {
                    spec_parse_elements(s, e, elems.push(v), depth)
                },
                SpecParse::Rejected(x) => SpecParse::Rejected(x),
                SpecParse::TooDeep(x) => SpecParse::TooDeep(x),
            }
        },
        _ => SpecParse::Rejected(t),
    }
}

/// The whole parse from a cursor position: exactly one VALUE, then the
/// `End` token.
pub open spec fn spec_parse_at(s: Seq<u8>, pos: int) -> SpecParse<SpecValue> {
    match spec_parse_value(s, pos, MAX_NESTING_DEPTH as nat) {
        SpecParse::Parsed(v, e) => {
            let t2 = spec_token(s, e);
            if t2.kind is End {
                SpecParse::Parsed(v, t2.end)
            } else {
                SpecParse::Rejected(t2)
            }
        },
        SpecParse::Rejected(x) => SpecParse::Rejected(x),
        SpecParse::TooDeep(x) => SpecParse::TooDeep(x),
    }
}

/// The whole parse of a document, from its start.
pub open spec fn spec_parse(s: Seq<u8>) -> SpecParse<SpecValue> {
    spec_parse_at(s, 0)
}

// Partial parse trees, one per grammar symbol, as the productions
// reduce them.
#[derive(Debug)]
struct Value(JsonValue);

#[derive(Debug)]
struct Object(json::JsonObject);

#[derive(Debug)]
struct Array(json::JsonArray);

#[derive(Debug)]
struct Members(json::JsonObject);

#[derive(Debug)]
struct Member((Vec<u8>, JsonValue));

#[derive(Debug)]
struct Elements(json::JsonArray);

enum Either<A, B> {
    First(A),
    Second(B),
}

/// The JSON parser: owns the scanner over the borrowed input.
pub struct JsonParser<'a> {
    lexer: Lex<'a>,
}

impl<'a> JsonParser<'a> {
    /// The input bytes.
    pub closed spec fn src(&self) -> Seq<u8> {
        self.lexer.src()
    }

    /// The scanner's cursor position.
    pub closed spec fn cursor(&self) -> int {
        self.lexer.cursor()
    }

    /// The scanner's cursor stays within the input.
    pub closed spec fn wf(&self) -> bool {
        self.lexer.wf()
    }

    /// Creates a parser over `source`.
    pub fn new(source: &'a [u8]) -> (r: JsonParser<'a>)
        ensures
            r.src() == source@,
            r.cursor() == 0,
            r.wf(),
    {
        JsonParser { lexer: Lex::new(source) }
    }

    /// VALUE = String
    fn reduce_value_string(&mut self, string: Vec<u8>) -> (r: Result<Value, ParseError>)
        ensures
            final (self).src() == old(self).src(),
            final (self).cursor() == old(self).cursor(),
            final (self).wf() == old(self).wf(),
            r is Ok && r.unwrap().0@ == SpecValue::String(string@) && r.unwrap().0.wf(),
    {
        Ok(Value(JsonValue::JsonString(string)))
    }

    /// VALUE = Number
    fn reduce_value_number(&mut self, number: json::JsonNumber) -> (r: Result<Value, ParseError>)
        ensures
            final (self).src() == old(self).src(),
            final (self).cursor() == old(self).cursor(),
            final (self).wf() == old(self).wf(),
            r is Ok && r.unwrap().0@ == SpecValue::Number(number) && r.unwrap().0.wf(),
    {
        Ok(Value(JsonValue::JsonNumber(number)))
    }

    /// VALUE = Bool
    fn reduce_value_bool(&mut self, b: bool) -> (r: Result<Value, ParseError>)
        ensures
            final (self).src() == old(self).src(),
            final (self).cursor() == old(self).cursor(),
            final (self).wf() == old(self).wf(),
            r is Ok && r.unwrap().0@ == SpecValue::Bool(b) && r.unwrap().0.wf(),
    {
        Ok(Value(JsonValue::JsonBool(b)))
    }

    /// VALUE = Null
    fn reduce_value_null(&mut self) -> (r: Result<Value, ParseError>)
        ensures
            final (self).src() == old(self).src(),
            final (self).cursor() == old(self).cursor(),
            final (self).wf() == old(self).wf(),
            r is Ok && r.unwrap().0@ == SpecValue::Null && r.unwrap().0.wf(),
    {
        Ok(Value(JsonValue::Null))
    }

    /// VALUE = OBJECT
    fn reduce_value_object(&mut self, o: Object) -> (r: Result<Value, ParseError>)
        requires
            keys_distinct(o.0@),
            entries_wf(o.0@),
        ensures
            final (self).src() == old(self).src(),
            final (self).cursor() == old(self).cursor(),
            final (self).wf() == old(self).wf(),
            r is Ok && r.unwrap().0@ == SpecValue::Object(object_view(o.0@)) && r.unwrap().0.wf(),
    {
        let Object(object) = o;
        Ok(Value(JsonValue::JsonObject(object)))
    }

    /// VALUE = ARRAY
    fn reduce_value_array(&mut self, array: Array) -> (r: Result<Value, ParseError>)
        requires
            elems_wf(array.0@),
        ensures
            final (self).src() == old(self).src(),
            final (self).cursor() == old(self).cursor(),
            final (self).wf() == old(self).wf(),
            r is Ok && r.unwrap().0@ == SpecValue::Array(array_view(array.0@)) && r.unwrap().0.wf(),
    {
        let Array(array) = array;
        Ok(Value(JsonValue::JsonArray(array)))
    }

    /// member = String ':' VALUE .
    fn member_string_colon_value(&mut self, key: Vec<u8>, value: Value) -> (r: Result<
        Member,
        ParseError,
    >)
        requires
            value.0.wf(),
        ensures
            final (self).src() == old(self).src(),
            final (self).cursor() == old(self).cursor(),
            final (self).wf() == old(self).wf(),
            r is Ok && r.unwrap().0.0@ == key@ && r.unwrap().0.1@ == value.0@ && r.unwrap().0.1.wf(),
    {
        let Value(value) = value;
        Ok(Member((key, value)))
    }

    /// MEMBERS = member .
    fn members_member(&mut self, member: Member) -> (r: Result<Members, ParseError>)
        requires
            member.0.1.wf(),
        ensures
            final (self).src() == old(self).src(),
            final (self).cursor() == old(self).cursor(),
            final (self).wf() == old(self).wf(),
            r is Ok && object_view(r.unwrap().0@) == Map::empty().insert(
                member.0.0@,
                member.0.1@,
            ) && keys_distinct(r.unwrap().0@) && entries_wf(r.unwrap().0@),
    {
        let Member((key, value)) = member;
        let mut object: json::JsonObject = Vec::new();
        proof {
            assert(keys_distinct(object@));
            assert(entries_wf(object@));
            assert(object_view(object@) == Map::<Seq<u8>, SpecValue>::empty());
        }
        object_insert(&mut object, key, value);
        Ok(Members(object))
    }

    /// MEMBERS = MEMBERS ',' member .
    fn members_members_comma_member(&mut self, members: Members, member: Member) -> (r: Result<
        Members,
        ParseError,
    >)
        requires
            keys_distinct(members.0@),
            entries_wf(members.0@),
            member.0.1.wf(),
        ensures
            final (self).src() == old(self).src(),
            final (self).cursor() == old(self).cursor(),
            final (self).wf() == old(self).wf(),
            r is Ok && object_view(r.unwrap().0@) == object_view(members.0@).insert(
                member.0.0@,
                member.0.1@,
            ) && keys_distinct(r.unwrap().0@) && entries_wf(r.unwrap().0@),
    {
        let Members(mut object) = members;
        let Member((key, value)) = member;
        object_insert(&mut object, key, value);
        Ok(Members(object))
    }

    /// ELEMENTS = VALUE .
    fn elements_value(&mut self, value: Value) -> (r: Result<Elements, ParseError>)
        requires
            value.0.wf(),
        ensures
            final (self).src() == old(self).src(),
            final (self).cursor() == old(self).cursor(),
            final (self).wf() == old(self).wf(),
            r is Ok && array_view(r.unwrap().0@) == seq![value.0@] && elems_wf(r.unwrap().0@),
    {
        let Value(member) = value;
        let mut array: json::JsonArray = Vec::new();
        proof {
            assert(array_view(array@) == Seq::<SpecValue>::empty());
            assert(elems_wf(array@));
            lemma_elems_wf_index(array@);
        }
        let ghost before = array@;
        array.push(member);
        proof {
            lemma_array_view_push(before, array@.last());
            assert(array_view(array@) =~= seq![value.0@]);
            lemma_elems_wf_index(array@);
        }
        Ok(Elements(array))
    }

    /// member = String ':' . VALUE — parses the value after the colon.
    #[verifier::rlimit(100)]
    #[verifier::spinoff_prover]
    fn member_string_colon(&mut self, key: Vec<u8>, depth: u32) -> (r: Result<Member, ParseError>)
        requires
            old(self).wf(),
        ensures
            final (self).wf(),
            final (self).src() == old(self).src(),
            match spec_parse_value(old(self).src(), old(self).cursor(), depth as nat) {
                SpecParse::Parsed(v, e) => r is Ok && r.unwrap().0.0@ == key@ && r.unwrap().0.1@
                    == v && r.unwrap().0.1.wf() && final (self).cursor() == e && old(self).cursor()
                    < e,
                SpecParse::Rejected(x) => r is Err && r.unwrap_err().token@ == x
                    && r.unwrap_err().kind is UnexpectedToken,
                SpecParse::TooDeep(x) => r is Err && r.unwrap_err().token@ == x
                    && r.unwrap_err().kind is NestingTooDeep,
            },
        decreases depth, 1int,
    {
        let ghost s = self.src();
        let ghost pos0 = self.cursor();
        proof {
            lemma_token_bounds(s, pos0);
        }
        let t = self.lexer.next();
        let ghost tok = t@;
        let value = match t {
            Token { kind: TokenKind::String(string), .. } => self.reduce_value_string(string)?,
            Token { kind: TokenKind::Number(number), .. } => self.reduce_value_number(number)?,
            Token { kind: TokenKind::Bool(b), .. } => self.reduce_value_bool(b)?,
            Token { kind: TokenKind::Null, .. } => self.reduce_value_null()?,
            Token { kind: TokenKind::LeftBrace, .. } => {
                if depth == 0 {
                    return Err(ParseError { token: t, kind: ParseErrorKind::NestingTooDeep });
                }
                let object = self.parse_object(depth - 1)?;
                self.reduce_value_object(object)?
            },
            Token { kind: TokenKind::LeftBracket, .. } => {
                if depth == 0 {
                    return Err(ParseError { token: t, kind: ParseErrorKind::NestingTooDeep });
                }
                let array = self.parse_array(depth - 1)?;
                self.reduce_value_array(array)?
            },
            token => {
                return Err(ParseError { token, kind: ParseErrorKind::UnexpectedToken });
            },
        };
        self.member_string_colon_value(key, value)
    }

    /// member = String . ':' VALUE — expects the colon after the key.
    fn member_string(&mut self, key: Vec<u8>, depth: u32) -> (r: Result<Member, ParseError>)
        requires
            old(self).wf(),
        ensures
            final (self).wf(),
            final (self).src() == old(self).src(),
            match spec_parse_member_rest(old(self).src(), old(self).cursor(), key@, depth as nat) {
                SpecParse::Parsed(kv, e) => r is Ok && r.unwrap().0.0@ == kv.0 && r.unwrap().0.1@
                    == kv.1 && r.unwrap().0.1.wf() && final (self).cursor() == e && old(
                    self,
                ).cursor() < e,
                SpecParse::Rejected(x) => r is Err && r.unwrap_err().token@ == x
                    && r.unwrap_err().kind is UnexpectedToken,
                SpecParse::TooDeep(x) => r is Err && r.unwrap_err().token@ == x
                    && r.unwrap_err().kind is NestingTooDeep,
            },
        decreases depth, 2int,
    {
        let ghost s = self.src();
        let ghost pos0 = self.cursor();
        proof {
            lemma_token_bounds(s, pos0);
        }
        let t = self.lexer.next();
        match t {
            Token { kind: TokenKind::Colon, .. } => Ok(self.member_string_colon(key, depth)?),
            token => Err(ParseError { token, kind: ParseErrorKind::UnexpectedToken }),
        }
    }

    /// MEMBERS = MEMBERS ',' . member — parses the member after the
    /// comma and folds it into the object built so far.
    fn members_members_comma(&mut self, members: Members, depth: u32) -> (r: Result<
        Members,
        ParseError,
    >)
        requires
            old(self).wf(),
            keys_distinct(members.0@),
            entries_wf(members.0@),
        ensures
            final (self).wf(),
            final (self).src() == old(self).src(),
            ({
                let t2 = spec_token(old(self).src(), old(self).cursor());
                match t2.kind {
                    SpecTokenKind::String(k) => match spec_parse_member_rest(
                        old(self).src(),
                        t2.end,
                        k,
                        depth as nat,
                    ) {
                        SpecParse::Parsed(kv, e) => r is Ok && object_view(r.unwrap().0@)
                            == object_view(members.0@).insert(kv.0, kv.1) && keys_distinct(
                            r.unwrap().0@,
                        ) && entries_wf(r.unwrap().0@) && final (self).cursor() == e && old(
                            self,
                        ).cursor() < e,
                        SpecParse::Rejected(x) => r is Err && r.unwrap_err().token@ == x
                            && r.unwrap_err().kind is UnexpectedToken,
                        SpecParse::TooDeep(x) => r is Err && r.unwrap_err().token@ == x
                            && r.unwrap_err().kind is NestingTooDeep,
                    },
                    _ => r is Err && r.unwrap_err().token@ == t2
                        && r.unwrap_err().kind is UnexpectedToken,
                }
            }),
        decreases depth, 3int,
    {
        let ghost s = self.src();
        let ghost pos0 = self.cursor();
        proof {
            lemma_token_bounds(s, pos0);
        }
        let t = self.lexer.next();
        let member = match t {
            Token { kind: TokenKind::String(key), .. } => self.member_string(key, depth)?,
            token => {
                return Err(ParseError { token, kind: ParseErrorKind::UnexpectedToken });
            },
        };
        Ok(self.members_members_comma_member(members, member)?)
    }

    /// OBJECT = '{' MEMBERS . '}' | MEMBERS = MEMBERS . ',' member —
    /// one step of the member loop: a comma continues, a right brace
    /// closes the object.
    #[verifier::rlimit(100)]
    #[verifier::spinoff_prover]
    fn parse_object_members(&mut self, members: Members, depth: u32) -> (r: Result<
        Either<Members, Object>,
        ParseError,
    >)
        requires
            old(self).wf(),
            keys_distinct(members.0@),
            entries_wf(members.0@),
        ensures
            final (self).wf(),
            final (self).src() == old(self).src(),
            ({
                let sm = spec_parse_members(
                    old(self).src(),
                    old(self).cursor(),
                    object_view(members.0@),
                    depth as nat,
                );
                match r {
                    Ok(Either::First(m2)) => spec_parse_members(
                        old(self).src(),
                        final (self).cursor(),
                        object_view(m2.0@),
                        depth as nat,
                    ) == sm && keys_distinct(m2.0@) && entries_wf(m2.0@) && old(self).cursor()
                        < final (self).cursor(),
                    Ok(Either::Second(o)) => sm == SpecParse::Parsed(
                        object_view(o.0@),
                        final (self).cursor(),
                    ) && keys_distinct(o.0@) && entries_wf(o.0@) && old(self).cursor() < final (
                    self).cursor(),
                    Err(er) => match sm {
                        SpecParse::Parsed(m, e) => false,
                        SpecParse::Rejected(x) => er.token@ == x
                            && er.kind is UnexpectedToken,
                        SpecParse::TooDeep(x) => er.token@ == x && er.kind is NestingTooDeep,
                    },
                }
            }),
        decreases depth, 4int,
    {
        let ghost s = self.src();
        let ghost pos0 = self.cursor();
        proof {
            lemma_token_bounds(s, pos0);
        }
        let t = self.lexer.next();
        match t {
            Token { kind: TokenKind::Comma, .. } => {
                proof {
                    lemma_token_bounds(s, self.cursor());
                }
                let members = self.members_members_comma(members, depth)?;
                Ok(Either::First(members))
            },
            Token { kind: TokenKind::RightBrace, .. } => {
                let Members(object) = members;
                Ok(Either::Second(Object(object)))
            },
            token => {
                return Err(ParseError { token, kind: ParseErrorKind::UnexpectedToken });
            },
        }
    }

    /// OBJECT = '{' . '}' | '{' . MEMBERS '}' — parses everything after
    /// the opening brace.
    #[verifier::rlimit(100)]
    #[verifier::spinoff_prover]
    fn parse_object(&mut self, depth: u32) -> (r: Result<Object, ParseError>)
        requires
            old(self).wf(),
        ensures
            final (self).wf(),
            final (self).src() == old(self).src(),
            match spec_parse_object(old(self).src(), old(self).cursor(), depth as nat) {
                SpecParse::Parsed(m, e) => r is Ok && object_view(r.unwrap().0@) == m
                    && keys_distinct(r.unwrap().0@) && entries_wf(r.unwrap().0@) && final (
                self).cursor() == e && old(self).cursor() < e,
                SpecParse::Rejected(x) => r is Err && r.unwrap_err().token@ == x
                    && r.unwrap_err().kind is UnexpectedToken,
                SpecParse::TooDeep(x) => r is Err && r.unwrap_err().token@ == x
                    && r.unwrap_err().kind is NestingTooDeep,
            },
        decreases depth, 5int,
    {
        let ghost s = self.src();
        let ghost pos0 = self.cursor();
        let ghost sobj = spec_parse_object(s, pos0, depth as nat);
        proof {
            lemma_token_bounds(s, pos0);
        }
        let t = self.lexer.next();
        let mut members = match t {
            Token { kind: TokenKind::String(key), .. } => {
                let member = self.member_string(key, depth)?;
                self.members_member(member)?
            },
            Token { kind: TokenKind::RightBrace, .. } => {
                let object: json::JsonObject = Vec::new();
                proof {
                    assert(object_view(object@) =~= Map::<Seq<u8>, SpecValue>::empty());
                }
                return Ok(Object(object));
            },
            token => {
                return Err(ParseError { token, kind: ParseErrorKind::UnexpectedToken });
            },
        };
        proof {
            assert(spec_parse_members(s, self.cursor(), object_view(members.0@), depth as nat)
                == sobj);
        }
        loop
            invariant
                self.wf(),
                self.src() == s,
                s == old(self).src(),
                pos0 == old(self).cursor(),
                sobj == spec_parse_object(s, pos0, depth as nat),
                keys_distinct(members.0@),
                entries_wf(members.0@),
                spec_parse_members(s, self.cursor(), object_view(members.0@), depth as nat)
                    == sobj,
                pos0 < self.cursor() <= s.len(),
            decreases s.len() - self.cursor(),
        {
            let step = self.parse_object_members(members, depth);
            match step {
                Ok(Either::First(m2)) => {
                    members = m2;
                },
                Ok(Either::Second(o)) => {
                    return Ok(o);
                },
                Err(er) => {
                    return Err(er);
                },
            }
        }
    }

    /// ELEMENTS = ELEMENTS ',' VALUE .
    fn elements_elements_comma_value(&mut self, elements: Elements, value: Value) -> (r: Result<
        Elements,
        ParseError,
    >)
        requires
            elems_wf(elements.0@),
            value.0.wf(),
        ensures
            final (self).src() == old(self).src(),
            final (self).cursor() == old(self).cursor(),
            final (self).wf() == old(self).wf(),
            r is Ok && array_view(r.unwrap().0@) == array_view(elements.0@).push(value.0@)
                && elems_wf(r.unwrap().0@),
    {
        let Elements(mut array) = elements;
        let Value(value) = value;
        let ghost before = array@;
        proof {
            lemma_elems_wf_index(before);
        }
        array.push(value);
        proof {
            lemma_array_view_push(before, array@.last());
            lemma_elems_wf_index(array@);
        }
        Ok(Elements(array))
    }

    /// ELEMENTS = ELEMENTS ',' . VALUE — parses the value after the
    /// comma and appends it to the array built so far.
    #[verifier::rlimit(100)]
    #[verifier::spinoff_prover]
    fn elements_elements_comma(&mut self, elements: Elements, depth: u32) -> (r: Result<
        Elements,
        ParseError,
    >)
        requires
            old(self).wf(),
            elems_wf(elements.0@),
        ensures
            final (self).wf(),
            final (self).src() == old(self).src(),
            match spec_parse_value(old(self).src(), old(self).cursor(), depth as nat) {
                SpecParse::Parsed(v, e) => r is Ok && array_view(r.unwrap().0@) == array_view(
                    elements.0@,
                ).push(v) && elems_wf(r.unwrap().0@) && final (self).cursor() == e && old(
                    self,
                ).cursor() < e,
                SpecParse::Rejected(x) => r is Err && r.unwrap_err().token@ == x
                    && r.unwrap_err().kind is UnexpectedToken,
                SpecParse::TooDeep(x) => r is Err && r.unwrap_err().token@ == x
                    && r.unwrap_err().kind is NestingTooDeep,
            },
        decreases depth, 1int,
    {
        let ghost s = self.src();
        let ghost pos0 = self.cursor();
        proof {
            lemma_token_bounds(s, pos0);
        }
        let t = self.lexer.next();
        let value = match t {
            Token { kind: TokenKind::String(string), .. } => self.reduce_value_string(string)?,
            Token { kind: TokenKind::Number(number), .. } => self.reduce_value_number(number)?,
            Token { kind: TokenKind::Bool(b), .. } => self.reduce_value_bool(b)?,
            Token { kind: TokenKind::Null, .. } => self.reduce_value_null()?,
            Token { kind: TokenKind::LeftBrace, .. } => {
                if depth == 0 {
                    return Err(ParseError { token: t, kind: ParseErrorKind::NestingTooDeep });
                }
                let object = self.parse_object(depth - 1)?;
                self.reduce_value_object(object)?
            },
            Token { kind: TokenKind::LeftBracket, .. } => {
                if depth == 0 {
                    return Err(ParseError { token: t, kind: ParseErrorKind::NestingTooDeep });
                }
                let array = self.parse_array(depth - 1)?;
                self.reduce_value_array(array)?
            },
            token => {
                return Err(ParseError { token, kind: ParseErrorKind::UnexpectedToken });
            },
        };
        Ok(self.elements_elements_comma_value(elements, value)?)
    }

    /// ARRAY = '[' ELEMENTS . ']' | ELEMENTS = ELEMENTS . ',' VALUE —
    /// one step of the element loop: a comma continues, a right bracket
    /// closes the array.
    #[verifier::rlimit(100)]
    #[verifier::spinoff_prover]
    fn parse_array_elements(&mut self, elements: Elements, depth: u32) -> (r: Result<
        Either<Elements, Array>,
        ParseError,
    >)
        requires
            old(self).wf(),
            elems_wf(elements.0@),
        ensures
            final (self).wf(),
            final (self).src() == old(self).src(),
            ({
                let se = spec_parse_elements(
                    old(self).src(),
                    old(self).cursor(),
                    array_view(elements.0@),
                    depth as nat,
                );
                match r {
                    Ok(Either::First(e2)) => spec_parse_elements(
                        old(self).src(),
                        final (self).cursor(),
                        array_view(e2.0@),
                        depth as nat,
                    ) == se && elems_wf(e2.0@) && old(self).cursor() < final (self).cursor(),
                    Ok(Either::Second(a)) => se == SpecParse::Parsed(
                        array_view(a.0@),
                        final (self).cursor(),
                    ) && elems_wf(a.0@) && old(self).cursor() < final (self).cursor(),
                    Err(er) => match se {
                        SpecParse::Parsed(v, e) => false,
                        SpecParse::Rejected(x) => er.token@ == x
                            && er.kind is UnexpectedToken,
                        SpecParse::TooDeep(x) => er.token@ == x && er.kind is NestingTooDeep,
                    },
                }
            }),
        decreases depth, 4int,
    {
        let ghost s = self.src();
        let ghost pos0 = self.cursor();
        proof {
            lemma_token_bounds(s, pos0);
        }
        let t = self.lexer.next();
        match t {
            Token { kind: TokenKind::Comma, .. } => {
                let elements = self.elements_elements_comma(elements, depth)?;
                Ok(Either::First(elements))
            },
            Token { kind: TokenKind::RightBracket, .. } => {
                let Elements(array) = elements;
                Ok(Either::Second(Array(array)))
            },
            token => Err(ParseError { token, kind: ParseErrorKind::UnexpectedToken }),
        }
    }

    /// ARRAY = '[' . ']' | '[' . ELEMENTS ']' — parses everything after
    /// the opening bracket.
    #[verifier::rlimit(100)]
    #[verifier::spinoff_prover]
    fn parse_array(&mut self, depth: u32) -> (r: Result<Array, ParseError>)
        requires
            old(self).wf(),
        ensures
            final (self).wf(),
            final (self).src() == old(self).src(),
            match spec_parse_array(old(self).src(), old(self).cursor(), depth as nat) {
                SpecParse::Parsed(a, e) => r is Ok && array_view(r.unwrap().0@) == a && elems_wf(
                    r.unwrap().0@,
                ) && final (self).cursor() == e && old(self).cursor() < e,
                SpecParse::Rejected(x) => r is Err && r.unwrap_err().token@ == x
                    && r.unwrap_err().kind is UnexpectedToken,
                SpecParse::TooDeep(x) => r is Err && r.unwrap_err().token@ == x
                    && r.unwrap_err().kind is NestingTooDeep,
            },
        decreases depth, 5int,
    {
        let ghost s = self.src();
        let ghost pos0 = self.cursor();
        let ghost sarr = spec_parse_array(s, pos0, depth as nat);
        proof {
            lemma_token_bounds(s, pos0);
        }
        let t = self.lexer.next();
        let value = match t {
            Token { kind: TokenKind::String(string), .. } => self.reduce_value_string(string)?,
            Token { kind: TokenKind::Number(number), .. } => self.reduce_value_number(number)?,
            Token { kind: TokenKind::Bool(b), .. } => self.reduce_value_bool(b)?,
            Token { kind: TokenKind::Null, .. } => self.reduce_value_null()?,
            Token { kind: TokenKind::RightBracket, .. } => {
                let array: json::JsonArray = Vec::new();
                proof {
                    assert(array_view(array@) =~= Seq::<SpecValue>::empty());
                    assert(elems_wf(array@));
                }
                return Ok(Array(array));
            },
            Token { kind: TokenKind::LeftBracket, .. } => {
                if depth == 0 {
                    return Err(ParseError { token: t, kind: ParseErrorKind::NestingTooDeep });
                }
                let array = self.parse_array(depth - 1)?;
                self.reduce_value_array(array)?
            },
            Token { kind: TokenKind::LeftBrace, .. } => {
                if depth == 0 {
                    return Err(ParseError { token: t, kind: ParseErrorKind::NestingTooDeep });
                }
                let object = self.parse_object(depth - 1)?;
                self.reduce_value_object(object)?
            },
            token => {
                return Err(ParseError { token, kind: ParseErrorKind::UnexpectedToken });
            },
        };
        let mut elements = self.elements_value(value)?;
        proof {
            assert(spec_parse_elements(s, self.cursor(), array_view(elements.0@), depth as nat)
                == sarr);
        }
        loop
            invariant
                self.wf(),
                self.src() == s,
                s == old(self).src(),
                pos0 == old(self).cursor(),
                sarr == spec_parse_array(s, pos0, depth as nat),
                elems_wf(elements.0@),
                spec_parse_elements(s, self.cursor(), array_view(elements.0@), depth as nat)
                    == sarr,
                pos0 < self.cursor() <= s.len(),
            decreases s.len() - self.cursor(),
        {
            let step = self.parse_array_elements(elements, depth);
            match step {
                Ok(Either::First(e2)) => {
                    elements = e2;
                },
                Ok(Either::Second(a)) => {
                    return Ok(a);
                },
                Err(er) => {
                    return Err(er);
                },
            }
        }
    }

    /// Parses the input as exactly one JSON value followed by the end
    /// of the input.  On success the value tree, whose view is what the
    /// grammar recognizes from the bytes; on failure the offending
    /// token with its byte span.
    #[verifier::rlimit(100)]
    #[verifier::spinoff_prover]
    pub fn parse(&mut self) -> (r: Result<JsonValue, ParseError>)
        requires
            old(self).wf(),
        ensures
            final (self).wf(),
            final (self).src() == old(self).src(),
            match spec_parse_at(old(self).src(), old(self).cursor()) {
                SpecParse::Parsed(v, e) => r is Ok && r.unwrap()@ == v && r.unwrap().wf() && final (
                self).cursor() == e,
                SpecParse::Rejected(x) => r is Err && r.unwrap_err().token@ == x
                    && r.unwrap_err().kind is UnexpectedToken,
                SpecParse::TooDeep(x) => r is Err && r.unwrap_err().token@ == x
                    && r.unwrap_err().kind is NestingTooDeep,
            },
    {
        let ghost s = self.src();
        let ghost pos0 = self.cursor();
        let depth = MAX_NESTING_DEPTH;
        proof {
            lemma_token_bounds(s, pos0);
        }
        let t = self.lexer.next();
        let value = match t {
            Token { kind: TokenKind::String(string), .. } => self.reduce_value_string(string)?,
            Token { kind: TokenKind::Number(number), .. } => self.reduce_value_number(number)?,
            Token { kind: TokenKind::Bool(b), .. } => self.reduce_value_bool(b)?,
            Token { kind: TokenKind::Null, .. } => self.reduce_value_null()?,
            Token { kind: TokenKind::LeftBrace, .. } => {
                if depth == 0 {
                    return Err(ParseError { token: t, kind: ParseErrorKind::NestingTooDeep });
                }
                let object = self.parse_object(depth - 1)?;
                self.reduce_value_object(object)?
            },
            Token { kind: TokenKind::LeftBracket, .. } => {
                if depth == 0 {
                    return Err(ParseError { token: t, kind: ParseErrorKind::NestingTooDeep });
                }
                let array = self.parse_array(depth - 1)?;
                self.reduce_value_array(array)?
            },
            token => {
                return Err(ParseError { token, kind: ParseErrorKind::UnexpectedToken });
            },
        };
        let t2 = self.lexer.next();
        match t2 {
            Token { kind: TokenKind::End, .. } => {
                let Value(value) = value;
                Ok(value)
            },
            token => Err(ParseError { token, kind: ParseErrorKind::UnexpectedToken }),
        }
    }
}

} // verus!
