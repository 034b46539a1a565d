//! Tokens and token sets.
use vstd::prelude::*;

verus! {

/// A token cut out of `src`: its kind, the byte range of its text `body`,
/// and the byte range `full` of the text with the trivia around it.
#[derive(Clone, Copy, Debug)]
pub struct Token<'input> {
    pub kind: usize,
    pub src: &'input str,
    pub body: (usize, usize),
    pub full: (usize, usize),
}

impl<'input> Token<'input> {
    pub fn new(kind: usize, src: &'input str, body: (usize, usize), full: (usize, usize)) -> (res: Token<'input>)
        ensures
            res.kind == kind,
            res.src == src,
            res.body == body,
            res.full == full,
    {
        Token { kind, src, body, full }
    }
}

/// The declaration of one token kind: its regular expressions and its
/// options (such as `trivia`, `pre_trivia`, `post_trivia`, `ignored`).
#[derive(Debug)]
pub struct TokenDef {
    pub texts: Vec<String>,
    pub options: Vec<String>,
}

/// A set of token kinds; the kind of `tokens[i]` is `i`.
#[derive(Debug)]
pub struct TokenSet {
    pub tokens: Vec<TokenDef>,
}

/// Whether two strings hold the same characters.
pub fn str_equal(a: &str, b: &str) -> (res: bool)
    ensures
        res == (a@ == b@),
{
    let a_len = a.unicode_len();
    let b_len = b.unicode_len();
    if a_len != b_len {
        return false;
    }
    let mut i: usize = 0;
    while i < a_len
        invariant
            a_len == a@.len(),
            b_len == b@.len(),
            a_len == b_len,
            i <= a_len,
            forall|j: int| 0 <= j < i ==> a@[j] == b@[j],
        decreases a_len - i,
    {
        if a.get_char(i) != b.get_char(i) {
            return false;
        }
        i = i + 1;
    }
    assert(a@ =~= b@);
    true
}

impl TokenSet {
    /// Token `t` carries option `opt`.
    pub open spec fn has_option(&self, t: int, opt: Seq<char>) -> bool {
        exists|j: int| 0 <= j < self.tokens@[t].options@.len() && (#[trigger] self.tokens@[t].options@[j])@ == opt
    }

    /// The kinds of the set, in order.
    pub fn iter(&self) -> (res: Vec<usize>)
        ensures
            res@.len() == self.tokens@.len(),
            forall|i: int| 0 <= i < res@.len() ==> res@[i] == i,
    {
        let mut res: Vec<usize> = Vec::new();
        let mut i: usize = 0;
        while i < self.tokens.len()
            invariant
                i <= self.tokens@.len(),
                res@.len() == i,
                forall|j: int| 0 <= j < i ==> res@[j] == j,
            decreases self.tokens@.len() - i,
        {
            res.push(i);
            i = i + 1;
        }
        res
    }

    /// Whether token `t` carries option `opt`.
    pub fn has_opt(&self, t: usize, opt: &str) -> (res: bool)
        requires
            t < self.tokens@.len(),
        ensures
            res == self.has_option(t as int, opt@),
    {
        let opts = &self.tokens[t].options;
        let mut j: usize = 0;
        while j < opts.len()
            invariant
                opts == self.tokens@[t as int].options,
                j <= opts@.len(),
                forall|q: int| 0 <= q < j ==> (#[trigger] opts@[q])@ != opt@,
            decreases opts@.len() - j,
        {
            if str_equal(opts[j].as_str(), opt) {
                return true;
            }
            j = j + 1;
        }
        false
    }

    /// The kinds marked `ignored`, in order.
    pub fn ignore_token(&self) -> (res: Vec<usize>)
        ensures
            forall|i: int| 0 <= i < res@.len() ==> res@[i] < self.tokens@.len() && self.has_option(res@[i] as int, "ignored"@),
            forall|t: int| 0 <= t < self.tokens@.len() && self.has_option(t, "ignored"@) ==> #[trigger] res@.contains(t as usize),
            forall|a: int, b: int| 0 <= a < b < res@.len() ==> res@[a] < res@[b],
    {
        let mut res: Vec<usize> = Vec::new();
        let mut i: usize = 0;
        let ignored = "ignored";
        while i < self.tokens.len()
            invariant
                ignored@ == "ignored"@,
                i <= self.tokens@.len(),
                forall|q: int| 0 <= q < res@.len() ==> res@[q] < i && self.has_option(res@[q] as int, "ignored"@),
                forall|t: int| 0 <= t < i && self.has_option(t, "ignored"@) ==> #[trigger] res@.contains(t as usize),
                forall|a: int, b: int| 0 <= a < b < res@.len() ==> res@[a] < res@[b],
            decreases self.tokens@.len() - i,
        {
            let ghost prev = res@;
            if self.has_opt(i, ignored) {
                res.push(i);
            }
            assert forall|t: int| 0 <= t < i + 1 && self.has_option(t, "ignored"@) implies #[trigger] res@.contains(t as usize) by {
                if t < i {
                    assert(prev.contains(t as usize));
                    let q = choose|q: int| 0 <= q < prev.len() && prev[q] == t as usize;
                    assert(res@[q] == t as usize);
                } else {
                    assert(res@[res@.len() - 1] == i);
                }
            }
            i = i + 1;
        }
        res
    }

    /// The regular expression of token `t`, anchored at the start: `^`
    /// followed by its first text.
    pub fn as_str(&self, t: usize) -> (res: String)
        requires
            t < self.tokens@.len(),
            self.tokens@[t as int].texts@.len() > 0,
        ensures
            res@ == "^"@ + self.tokens@[t as int].texts@[0]@,
    {
        let mut s = String::from_str("^");
        s.append(self.tokens[t].texts[0].as_str());
        s
    }
}

} // verus!
