//! The lexer: token kinds described by regular expressions, and trivia
//! (text skipped before a token, and text kept with a token after it).
//!
//! Regular expressions are compiled and run by the `regex` crate. What a
//! compiled expression finds is named here, as a function of the pattern
//! and the text searched, and the lexer is specified over those names.
use vstd::prelude::*;
use vstd::utf8::{is_char_boundary, decode_utf8};
use vstd::string::StringSliceAdditionalSpecFns;
use regex::{Regex, RegexSet};
use crate::token::{Token, TokenSet};
use crate::error::{DiagnosticError, ErrorBody};

verus! {

#[verifier::external_type_specification]
#[verifier::external_body]
pub struct ExRegex(Regex);

#[verifier::external_type_specification]
#[verifier::external_body]
pub struct ExRegexSet(RegexSet);

#[verifier::external_type_specification]
#[verifier::external_body]
pub struct ExRegexError(regex::Error);

/// `Regex::new` accepts the pattern: it is valid syntax, and the compiled
/// expression stays within the default size limit.
pub uninterp spec fn regex_accepts(pattern: Seq<char>) -> bool;

/// `RegexSet::new` accepts the patterns.
pub uninterp spec fn regex_set_accepts(patterns: Seq<Seq<char>>) -> bool;

/// The byte range of the first (leftmost-first) match of `pattern` in
/// `hay`, as `Regex::find` reports it.
pub uninterp spec fn regex_match(pattern: Seq<char>, hay: Seq<char>) -> Option<(usize, usize)>;

/// The indices of the patterns of a set that match somewhere in `hay`, as
/// `RegexSet::matches` reports them.
pub uninterp spec fn regex_set_match_list(patterns: Seq<Seq<char>>, hay: Seq<char>) -> Seq<usize>;

/// A compiled regular expression together with its pattern.
pub struct CompiledRegex {
    text: String,
    re: Regex,
}

impl View for CompiledRegex {
    type V = Seq<char>;

    closed spec fn view(&self) -> Seq<char> {
        self.text@
    }
}

/// A compiled set of regular expressions together with their patterns.
pub struct CompiledRegexSet {
    texts: Vec<String>,
    set: RegexSet,
}

pub open spec fn strings_view(v: Seq<String>) -> Seq<Seq<char>> {
    Seq::new(v.len(), |i: int| v[i]@)
}

impl View for CompiledRegexSet {
    type V = Seq<Seq<char>>;

    closed spec fn view(&self) -> Seq<Seq<char>> {
        strings_view(self.texts@)
    }
}

/// Calls `Regex::new`. It returns `Ok` exactly when the pattern is accepted
/// (`regex_accepts`, which depends on the pattern alone); the error it
/// returns otherwise is not described.
#[verifier::external_body]
fn regex_new(pattern: &str) -> (res: Result<Regex, regex::Error>)
    ensures
        res is Ok <==> regex_accepts(pattern@),
{
    Regex::new(pattern)
}

/// Calls `Regex::find` on the expression compiled from the pattern `r@`.
/// The result is the named match `regex_match(r@, hay@)`; as the crate
/// documents, a match has `start <= end`, and both offsets lie within the
/// text on character boundaries.
#[verifier::external_body]
fn regex_find(r: &CompiledRegex, hay: &str) -> (res: Option<(usize, usize)>)
    ensures
        res == regex_match(r@, hay@),
        res matches Some((s, e)) ==> s <= e <= hay.spec_bytes().len() && is_char_boundary(hay.spec_bytes(), s as int)
            && is_char_boundary(hay.spec_bytes(), e as int),
{
    match r.re.find(hay) {
        Some(m) => Some((m.start(), m.end())),
        None => None,
    }
}

/// Calls `RegexSet::new`. It returns `Ok` exactly when the patterns are
/// accepted (`regex_set_accepts`); the error is not described.
#[verifier::external_body]
fn regex_set_new(patterns: &Vec<String>) -> (res: Result<RegexSet, regex::Error>)
    ensures
        res is Ok <==> regex_set_accepts(strings_view(patterns@)),
{
    RegexSet::new(patterns)
}

/// Calls `RegexSet::matches` on the set compiled from the patterns `s@`
/// and lists the matching indices. The result is the named list
/// `regex_set_match_list(s@, hay@)`; as the crate documents, the indices
/// come in ascending order and each names a pattern of the set.
#[verifier::external_body]
fn regex_set_matches(s: &CompiledRegexSet, hay: &str) -> (res: Vec<usize>)
    ensures
        res@ == regex_set_match_list(s@, hay@),
        forall|a: int, b: int| 0 <= a < b < res@.len() ==> res@[a] < res@[b],
        forall|a: int| 0 <= a < res@.len() ==> res@[a] < s@.len(),
{
    s.set.matches(hay).into_iter().collect()
}

/// Compiles a pattern.
pub fn compile(pattern: String) -> (res: Result<CompiledRegex, DiagnosticError>)
    ensures
        res is Ok <==> regex_accepts(pattern@),
        res matches Ok(r) ==> r@ == pattern@,
        res matches Err(e) ==> e.err is Regex && e.diagnostics is None,
{
    match regex_new(pattern.as_str()) {
        Ok(re) => Ok(CompiledRegex { text: pattern, re }),
        Err(e) => Err(DiagnosticError::from(ErrorBody::Regex(e))),
    }
}

/// Compiles a set of patterns.
pub fn compile_set(patterns: Vec<String>) -> (res: Result<CompiledRegexSet, DiagnosticError>)
    ensures
        res is Ok <==> regex_set_accepts(strings_view(patterns@)),
        res matches Ok(s) ==> s@ == strings_view(patterns@),
        res matches Err(e) ==> e.err is Regex && e.diagnostics is None,
{
    match regex_set_new(&patterns) {
        Ok(set) => Ok(CompiledRegexSet { texts: patterns, set }),
        Err(e) => Err(DiagnosticError::from(ErrorBody::Regex(e))),
    }
}

/// `parts` joined by `|`.
pub open spec fn join_bar(parts: Seq<Seq<char>>) -> Seq<char>
    decreases parts.len(),
{
    if parts.len() == 0 {
        seq![]
    } else if parts.len() == 1 {
        parts[0]
    } else {
        join_bar(parts.drop_last()) + seq!['|'] + parts.last()
    }
}

/// The anchored alternation of `parts`: `^(` the parts joined by `|` `)`.
pub open spec fn or_regex(parts: Seq<Seq<char>>) -> Seq<char> {
    seq!['^', '('] + join_bar(parts) + seq![')']
}

/// `str_list` joined by `|`.
pub fn join_with_bar(str_list: &Vec<String>) -> (res: String)
    ensures
        res@ == join_bar(strings_view(str_list@)),
{
    let ghost v = strings_view(str_list@);
    let mut res = String::new();
    let mut i: usize = 0;
    while i < str_list.len()
        invariant
            v == strings_view(str_list@),
            i <= str_list@.len(),
            res@ == join_bar(v.subrange(0, i as int)),
        decreases str_list@.len() - i,
    {
        let ghost pre = v.subrange(0, i as int);
        let ghost cur = v.subrange(0, i + 1);
        assert(cur.drop_last() == pre);
        assert(cur.last() == str_list@[i as int]@);
        if i > 0 {
            res.append("|");
            proof {
                reveal_strlit("|");
            }
        } else {
            assert(res@ == Seq::<char>::empty());
        }
        res.append(str_list[i].as_str());
        proof {
            if i == 0 {
                assert(res@ == cur[0]);
            } else {
                assert(res@ == join_bar(pre) + seq!['|'] + cur.last());
            }
        }
        i = i + 1;
    }
    assert(v.subrange(0, str_list@.len() as int) == v);
    res
}

/// The anchored alternation of `str_list`: `^(` the strings joined by `|`
/// `)`.
pub fn to_or_regex(str_list: &Vec<String>) -> (res: String)
    ensures
        res@ == or_regex(strings_view(str_list@)),
{
    let mut res = String::from_str("^(");
    let joined = join_with_bar(str_list);
    res.append(joined.as_str());
    res.append(")");
    proof {
        reveal_strlit("^(");
        reveal_strlit(")");
    }
    res
}

/// The texts of token `t` joined by `|`.
pub open spec fn token_alt(ts: TokenSet, t: int) -> Seq<char> {
    join_bar(strings_view(ts.tokens@[t].texts@))
}

/// The anchored alternation of the texts of token `t`.
pub open spec fn token_regex(ts: TokenSet, t: int) -> Seq<char> {
    or_regex(strings_view(ts.tokens@[t].texts@))
}

/// For the first `n` tokens that carry the option `opt`, in order, their
/// texts joined by `|`.
pub open spec fn opt_list(ts: TokenSet, opt: Seq<char>, n: nat) -> Seq<Seq<char>>
    decreases n,
{
    if n == 0 {
        seq![]
    } else {
        let r = opt_list(ts, opt, (n - 1) as nat);
        if ts.has_option(n - 1, opt) {
            r.push(token_alt(ts, n - 1))
        } else {
            r
        }
    }
}

/// The pattern of the tokens that carry the option `opt`: `None` when
/// there is none.
pub open spec fn opt_pattern(ts: TokenSet, opt: Seq<char>) -> Option<Seq<char>> {
    let l = opt_list(ts, opt, ts.tokens@.len());
    if l.len() == 0 {
        None
    } else {
        Some(or_regex(l))
    }
}

/// The pattern compiles, or there is none.
pub open spec fn opt_accepts(p: Option<Seq<char>>) -> bool {
    match p {
        Some(q) => regex_accepts(q),
        None => true,
    }
}

/// Token `t` is trivia of some kind.
pub open spec fn is_trivia(ts: TokenSet, t: int) -> bool {
    ts.has_option(t, "pre_trivia"@) || ts.has_option(t, "trivia"@) || ts.has_option(t, "post_trivia"@)
}

/// The patterns of the first `n` tokens that are not trivia, in order.
pub open spec fn set_list(ts: TokenSet, n: nat) -> Seq<Seq<char>>
    decreases n,
{
    if n == 0 {
        seq![]
    } else {
        let r = set_list(ts, (n - 1) as nat);
        if is_trivia(ts, n - 1) {
            r
        } else {
            r.push(token_regex(ts, n - 1))
        }
    }
}

proof fn lemma_set_list_len(ts: TokenSet, n: nat)
    ensures
        set_list(ts, n).len() <= n,
    decreases n,
{
    if n > 0 {
        lemma_set_list_len(ts, (n - 1) as nat);
    }
}

pub open spec fn opt_view(o: Option<CompiledRegex>) -> Option<Seq<char>> {
    match o {
        Some(r) => Some(r@),
        None => None,
    }
}

/// The compiled pattern of the tokens that carry the option `opt`, or
/// `None` when there is none.
pub fn get_regex_by_opts(tokens: &TokenSet, opt: &str) -> (res: Result<Option<CompiledRegex>, DiagnosticError>)
    ensures
        res is Ok <==> opt_accepts(opt_pattern(*tokens, opt@)),
        res matches Ok(o) ==> opt_view(o) == opt_pattern(*tokens, opt@),
        res matches Err(e) ==> e.err is Regex && e.diagnostics is None,
{
    let mut list: Vec<String> = Vec::new();
    let mut t: usize = 0;
    while t < tokens.tokens.len()
        invariant
            t <= tokens.tokens@.len(),
            strings_view(list@) == opt_list(*tokens, opt@, t as nat),
        decreases tokens.tokens@.len() - t,
    {
        if tokens.has_opt(t, opt) {
            let alt = join_with_bar(&tokens.tokens[t].texts);
            list.push(alt);
            assert(strings_view(list@) == opt_list(*tokens, opt@, t as nat).push(token_alt(*tokens, t as int)));
        }
        t = t + 1;
    }
    if list.len() == 0 {
        Ok(None)
    } else {
        match compile(to_or_regex(&list)) {
            Ok(r) => Ok(Some(r)),
            Err(e) => Err(e),
        }
    }
}

/// The lexer: the trivia expressions, the set of the expressions of the
/// tokens that are not trivia, and, for every token kind in order, its
/// expression and its kind.
pub struct RegexLexer {
    regex_pre_trivia: Option<CompiledRegex>,
    regex_post_trivia: Option<CompiledRegex>,
    regex_set: CompiledRegexSet,
    regex_map: Vec<(CompiledRegex, usize)>,
}

impl RegexLexer {
    /// The pattern of the trivia skipped before a token.
    pub closed spec fn pre_pattern(&self) -> Option<Seq<char>> {
        opt_view(self.regex_pre_trivia)
    }

    /// The pattern of the trivia kept with a token after it.
    pub closed spec fn post_pattern(&self) -> Option<Seq<char>> {
        opt_view(self.regex_post_trivia)
    }

    /// The patterns of the set that picks a token.
    pub closed spec fn set_patterns(&self) -> Seq<Seq<char>> {
        self.regex_set@
    }

    /// The pattern and kind of each entry of the map.
    pub closed spec fn map_entries(&self) -> Seq<(Seq<char>, usize)> {
        Seq::new(self.regex_map@.len(), |i: int| (self.regex_map@[i].0@, self.regex_map@[i].1))
    }

    /// Every index of the set has an entry in the map.
    pub open spec fn wf(&self) -> bool {
        self.set_patterns().len() <= self.map_entries().len()
    }

    /// Builds the lexer of a token set. Trivia before a token is matched by
    /// the tokens marked `pre_trivia`, or, when there are none, by those
    /// marked `trivia`; trivia after a token by those marked `post_trivia`.
    /// Tokens with none of these marks are picked by a set of expressions;
    /// the map holds the expression of every token, in order. Fails when an
    /// expression does not compile.
    pub fn init(tokens: &TokenSet) -> (res: Result<RegexLexer, DiagnosticError>)
        ensures
            res is Ok <==> {
                &&& opt_accepts(opt_pattern(*tokens, "pre_trivia"@))
                &&& opt_accepts(opt_pattern(*tokens, "trivia"@))
                &&& opt_accepts(opt_pattern(*tokens, "post_trivia"@))
                &&& regex_set_accepts(set_list(*tokens, tokens.tokens@.len()))
                &&& forall|t: int| 0 <= t < tokens.tokens@.len() ==> regex_accepts(#[trigger] token_regex(*tokens, t))
            },
            res matches Ok(l) ==> {
                &&& l.wf()
                &&& l.pre_pattern() == match opt_pattern(*tokens, "pre_trivia"@) {
                    Some(p) => Some(p),
                    None => opt_pattern(*tokens, "trivia"@),
                }
                &&& l.post_pattern() == opt_pattern(*tokens, "post_trivia"@)
                &&& l.set_patterns() == set_list(*tokens, tokens.tokens@.len())
                &&& l.map_entries() == Seq::new(tokens.tokens@.len(), |t: int| (token_regex(*tokens, t), t as usize))
            },
            res matches Err(e) ==> e.err is Regex && e.diagnostics is None,
    {
        let pre = match get_regex_by_opts(tokens, "pre_trivia") {
            Ok(o) => o,
            Err(e) => return Err(e),
        };
        let triv = match get_regex_by_opts(tokens, "trivia") {
            Ok(o) => o,
            Err(e) => return Err(e),
        };
        let regex_pre_trivia = match pre {
            Some(r) => Some(r),
            None => triv,
        };
        let regex_post_trivia = match get_regex_by_opts(tokens, "post_trivia") {
            Ok(o) => o,
            Err(e) => return Err(e),
        };
        let mut pats: Vec<String> = Vec::new();
        let mut t: usize = 0;
        while t < tokens.tokens.len()
            invariant
                t <= tokens.tokens@.len(),
                strings_view(pats@) == set_list(*tokens, t as nat),
            decreases tokens.tokens@.len() - t,
        {
            let a = tokens.has_opt(t, "pre_trivia");
            let b = tokens.has_opt(t, "trivia");
            let c = tokens.has_opt(t, "post_trivia");
            if !a && !b && !c {
                let p = to_or_regex(&tokens.tokens[t].texts);
                pats.push(p);
                assert(strings_view(pats@) == set_list(*tokens, t as nat).push(token_regex(*tokens, t as int)));
            }
            t = t + 1;
        }
        let regex_set = match compile_set(pats) {
            Ok(s) => s,
            Err(e) => return Err(e),
        };
        let mut regex_map: Vec<(CompiledRegex, usize)> = Vec::new();
        let mut t: usize = 0;
        while t < tokens.tokens.len()
            invariant
                t <= tokens.tokens@.len(),
                regex_map@.len() == t,
                forall|q: int| 0 <= q < t ==> (#[trigger] regex_map@[q]).0@ == token_regex(*tokens, q) && regex_map@[q].1 == q,
                forall|q: int| 0 <= q < t ==> regex_accepts(#[trigger] token_regex(*tokens, q)),
            decreases tokens.tokens@.len() - t,
        {
            let p = to_or_regex(&tokens.tokens[t].texts);
            assert(p@ == token_regex(*tokens, t as int));
            match compile(p) {
                Ok(r) => {
                    regex_map.push((r, t));
                },
                Err(e) => {
                    assert(!regex_accepts(token_regex(*tokens, t as int)));
                    return Err(e);
                },
            }
            t = t + 1;
        }
        let l = RegexLexer { regex_pre_trivia, regex_post_trivia, regex_set, regex_map };
        proof {
            lemma_set_list_len(*tokens, tokens.tokens@.len());
            assert(l.map_entries() == Seq::new(tokens.tokens@.len(), |t: int| (token_regex(*tokens, t), t as usize)));
        }
        Ok(l)
    }
}

/// The text from byte `k` of `bytes` on.
pub open spec fn rest_of(bytes: Seq<u8>, k: int) -> Seq<char> {
    decode_utf8(bytes.subrange(k, bytes.len() as int))
}

/// The length of the trivia at the start of `hay`: the length of the match
/// of `pat`, or 0 without a pattern or a match.
pub open spec fn pre_len(pat: Option<Seq<char>>, hay: Seq<char>) -> int {
    match pat {
        None => 0,
        Some(p) => match regex_match(p, hay) {
            Some((s, e)) => if s <= e {
                e - s
            } else {
                0
            },
            None => 0,
        },
    }
}

/// The length of the trivia kept after a token at the start of `hay`
/// (whose bytes are `hay_bytes`): the length of the match of `pat`, less a
/// final newline; 0 without a pattern or a match.
pub open spec fn post_len(pat: Option<Seq<char>>, hay: Seq<char>, hay_bytes: Seq<u8>) -> int {
    match pat {
        None => 0,
        Some(p) => match regex_match(p, hay) {
            None => 0,
            Some((s, e)) => if e <= s {
                0
            } else if hay_bytes[e - 1] == 10u8 {
                e - s - 1
            } else {
                e - s
            },
        },
    }
}

/// One step of the lexer on the text with bytes `bytes` from byte `begin`:
/// the kind, the byte range of the body, and the byte range with the
/// trivia, of the token found there; `None` where no token starts.
///
/// The trivia before the token is skipped; the first expression of the set
/// that matches picks an entry of the map, whose expression gives the body;
/// then the trivia after the body is added. A position that is not on a
/// character boundary ends the input.
pub open spec fn lex_step(l: RegexLexer, bytes: Seq<u8>, begin: int) -> Option<(usize, (int, int), (int, int))> {
    if !is_char_boundary(bytes, begin) {
        None
    } else {
        let bb = begin + pre_len(l.pre_pattern(), rest_of(bytes, begin));
        if !is_char_boundary(bytes, bb) {
            None
        } else {
            let ms = regex_set_match_list(l.set_patterns(), rest_of(bytes, bb));
            if ms.len() == 0 {
                None
            } else {
                let (pat, kind) = l.map_entries()[ms[0] as int];
                match regex_match(pat, rest_of(bytes, bb)) {
                    None => None,
                    Some((s, e)) => {
                        let be = bb + (e - s);
                        if e < s || !is_char_boundary(bytes, be) {
                            None
                        } else {
                            let post = post_len(l.post_pattern(), rest_of(bytes, be), bytes.subrange(be, bytes.len() as int));
                            Some((kind, (bb, be), (begin, be + post)))
                        }
                    },
                }
            }
        }
    }
}

/// The tokens of the text from byte `pos` on: steps while a token is found;
/// a token that ends where it began is the last one.
pub open spec fn lex_run(l: RegexLexer, bytes: Seq<u8>, pos: int) -> Seq<(usize, (int, int), (int, int))>
    decreases bytes.len() - pos,
{
    match lex_step(l, bytes, pos) {
        None => seq![],
        Some(t) => if pos < t.2.1 <= bytes.len() {
            seq![t] + lex_run(l, bytes, t.2.1)
        } else {
            seq![t]
        },
    }
}

/// The token has the kind and ranges of `t`, in `src`.
pub open spec fn token_is(tok: Token, src: &str, t: (usize, (int, int), (int, int))) -> bool {
    &&& tok.kind == t.0
    &&& tok.src == src
    &&& tok.body.0 == t.1.0
    &&& tok.body.1 == t.1.1
    &&& tok.full.0 == t.2.0
    &&& tok.full.1 == t.2.1
}

/// A character boundary of a text lies within it.
proof fn lemma_boundary_in_range(src: &str, k: int)
    requires
        is_char_boundary(src.spec_bytes(), k),
    ensures
        0 <= k <= src.spec_bytes().len(),
{
    vstd::utf8::encode_utf8_valid_utf8(src@);
}

/// The text of `src` from byte `k` on.
fn rest_at<'a>(src: &'a str, k: usize) -> (res: &'a str)
    requires
        is_char_boundary(src.spec_bytes(), k as int),
    ensures
        res.spec_bytes() == src.spec_bytes().subrange(k as int, src.spec_bytes().len() as int),
        res@ == rest_of(src.spec_bytes(), k as int),
{
    let (_, rest) = src.split_at(k);
    proof {
        vstd::utf8::encode_utf8_decode_utf8(rest@);
    }
    rest
}

impl RegexLexer {
    /// The length of the trivia at the start of `s`.
    pub fn pre_trivia_len(&self, s: &str) -> (res: usize)
        ensures
            res == pre_len(self.pre_pattern(), s@),
            res <= s.spec_bytes().len(),
    {
        match &self.regex_pre_trivia {
            None => 0,
            Some(re) => match regex_find(re, s) {
                Some((a, b)) => b - a,
                None => 0,
            },
        }
    }

    /// The length of the trivia kept after a token at the start of `s`,
    /// less a final newline.
    pub fn post_trivia_len(&self, s: &str) -> (res: usize)
        ensures
            res == post_len(self.post_pattern(), s@, s.spec_bytes()),
            res <= s.spec_bytes().len(),
    {
        match &self.regex_post_trivia {
            None => 0,
            Some(re) => match regex_find(re, s) {
                None => 0,
                Some((a, b)) => {
                    if b == a {
                        0
                    } else {
                        let bytes = s.as_bytes();
                        if bytes[b - 1] == 10u8 {
                            b - a - 1
                        } else {
                            b - a
                        }
                    }
                },
            },
        }
    }

    /// The token that starts at byte `begin` of `src`, if any.
    pub fn extract_token<'input>(&self, src: &'input str, begin: usize) -> (res: Option<Token<'input>>)
        requires
            self.wf(),
        ensures
            match lex_step(*self, src.spec_bytes(), begin as int) {
                None => res is None,
                Some(t) => res matches Some(tok) && token_is(tok, src, t),
            },
    {
        let ghost bytes = src.spec_bytes();
        let total = src.as_bytes().len();
        assert(total == bytes.len());
        if !src.is_char_boundary(begin) {
            return None;
        }
        proof {
            lemma_boundary_in_range(src, begin as int);
        }
        let rest = rest_at(src, begin);
        let pre = self.pre_trivia_len(rest);
        let body_begin = begin + pre;
        if !src.is_char_boundary(body_begin) {
            return None;
        }
        proof {
            lemma_boundary_in_range(src, body_begin as int);
        }
        let body_rest = rest_at(src, body_begin);
        let ms = regex_set_matches(&self.regex_set, body_rest);
        if ms.len() == 0 {
            return None;
        }
        let idx = ms[0];
        proof {
            assert(self.set_patterns() == self.regex_set@);
        }
        let entry = &self.regex_map[idx];
        let kind = entry.1;
        proof {
            assert(self.map_entries()[idx as int] == (entry.0@, kind));
        }
        match regex_find(&entry.0, body_rest) {
            None => None,
            Some((a, b)) => {
                let body_end = body_begin + (b - a);
                if !src.is_char_boundary(body_end) {
                    return None;
                }
                let post_rest = rest_at(src, body_end);
                let post = self.post_trivia_len(post_rest);
                Some(Token { kind, src, body: (body_begin, body_end), full: (begin, body_end + post) })
            },
        }
    }

    /// The tokens of `input`, in order, from its start.
    pub fn run<'input>(&self, input: &'input str) -> (res: Vec<Token<'input>>)
        requires
            self.wf(),
        ensures
            res@.len() == lex_run(*self, input.spec_bytes(), 0).len(),
            forall|i: int| 0 <= i < res@.len() ==> token_is(#[trigger] res@[i], input, lex_run(*self, input.spec_bytes(), 0)[i]),
    {
        let ghost bytes = input.spec_bytes();
        let mut res: Vec<Token<'input>> = Vec::new();
        let ghost mut done: Seq<(usize, (int, int), (int, int))> = seq![];
        let mut pos: usize = 0;
        let n = input.as_bytes().len();
        assert(done + lex_run(*self, bytes, 0) == lex_run(*self, bytes, 0));
        loop
            invariant
                self.wf(),
                bytes == input.spec_bytes(),
                n == bytes.len(),
                pos <= n,
                lex_run(*self, bytes, 0) == done + lex_run(*self, bytes, pos as int),
                res@.len() == done.len(),
                forall|i: int| 0 <= i < res@.len() ==> token_is(#[trigger] res@[i], input, done[i]),
            decreases n - pos,
        {
            match self.extract_token(input, pos) {
                None => {
                    proof {
                        assert(lex_run(*self, bytes, pos as int) == Seq::<(usize, (int, int), (int, int))>::empty());
                        assert(done + Seq::<(usize, (int, int), (int, int))>::empty() == done);
                    }
                    return res;
                },
                Some(tok) => {
                    let ghost t = lex_step(*self, bytes, pos as int)->0;
                    let ghost old_done = done;
                    let ghost old_res = res@;
                    res.push(tok);
                    proof {
                        done = old_done.push(t);
                        assert forall|i: int| 0 <= i < res@.len() implies token_is(#[trigger] res@[i], input, done[i]) by {
                            if i < old_done.len() {
                                assert(res@[i] == old_res[i]);
                            }
                        }
                    }
                    let end = tok.full.1;
                    if pos < end && end <= n {
                        proof {
                            assert(lex_run(*self, bytes, pos as int) == seq![t] + lex_run(*self, bytes, end as int));
                            assert(old_done + (seq![t] + lex_run(*self, bytes, end as int)) == done + lex_run(*self, bytes, end as int));
                        }
                        pos = end;
                    } else {
                        proof {
                            assert(lex_run(*self, bytes, pos as int) == seq![t]);
                            assert(old_done + seq![t] == done);
                        }
                        return res;
                    }
                },
            }
        }
    }
}

/// A token found at `begin` starts its range with trivia there, and its
/// body lies within that range.
pub proof fn lemma_lex_step_shape(l: RegexLexer, bytes: Seq<u8>, begin: int)
    ensures
        lex_step(l, bytes, begin) matches Some(t) ==> t.2.0 == begin && t.2.0 <= t.1.0 <= t.1.1 <= t.2.1,
{
    if let Some(t) = lex_step(l, bytes, begin) {
        let bb = begin + pre_len(l.pre_pattern(), rest_of(bytes, begin));
        assert(pre_len(l.pre_pattern(), rest_of(bytes, begin)) >= 0);
        assert(t.1.0 == bb);
        let be = t.1.1;
        assert(post_len(l.post_pattern(), rest_of(bytes, be), bytes.subrange(be, bytes.len() as int)) >= 0);
    }
}

/// The tokens of a run tile the text from where the run starts: the first
/// token's range with trivia begins there, and each further token's range
/// with trivia begins where the previous one ends; each body lies within
/// its token's range with trivia. The run is empty exactly when no token
/// is found where it starts, and it ends where no token is found after the
/// last one, or where the last one did not advance.
pub proof fn lemma_lex_run_tiles(l: RegexLexer, bytes: Seq<u8>, pos: int)
    ensures
        lex_run(l, bytes, pos).len() > 0 ==> lex_run(l, bytes, pos)[0].2.0 == pos,
        forall|i: int| 0 < i < lex_run(l, bytes, pos).len() ==> (#[trigger] lex_run(l, bytes, pos)[i]).2.0 == lex_run(l, bytes, pos)[i - 1].2.1,
        forall|i: int| 0 <= i < lex_run(l, bytes, pos).len() ==> {
            let t = #[trigger] lex_run(l, bytes, pos)[i];
            t.2.0 <= t.1.0 <= t.1.1 <= t.2.1
        },
        lex_run(l, bytes, pos).len() == 0 <==> lex_step(l, bytes, pos) is None,
        lex_run(l, bytes, pos).len() > 0 ==> {
            let t = lex_run(l, bytes, pos).last();
            !(t.2.0 < t.2.1 <= bytes.len()) || lex_step(l, bytes, t.2.1) is None
        },
    decreases bytes.len() - pos,
{
    let r = lex_run(l, bytes, pos);
    lemma_lex_step_shape(l, bytes, pos);
    match lex_step(l, bytes, pos) {
        None => {},
        Some(t) => {
            if pos < t.2.1 <= bytes.len() {
                let rest = lex_run(l, bytes, t.2.1);
                lemma_lex_run_tiles(l, bytes, t.2.1);
                assert(r == seq![t] + rest);
                assert forall|i: int| 0 < i < r.len() implies (#[trigger] r[i]).2.0 == r[i - 1].2.1 by {
                    assert(r[i] == rest[i - 1]);
                    if i > 1 {
                        assert(r[i - 1] == rest[i - 2]);
                    }
                }
                assert forall|i: int| 0 <= i < r.len() implies {
                    let u = #[trigger] r[i];
                    u.2.0 <= u.1.0 <= u.1.1 <= u.2.1
                } by {
                    if i > 0 {
                        assert(r[i] == rest[i - 1]);
                    }
                }
                if rest.len() > 0 {
                    assert(r.last() == rest.last());
                } else {
                    assert(r.last() == t);
                }
            } else {
                assert(r == seq![t]);
                assert(r.last() == t);
            }
        },
    }
}

} // verus!
