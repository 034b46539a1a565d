//! The text form of a production rule: `<lhs> ::= sym sym ...`, where a
//! symbol in angle brackets is a nonterminal and any other word names a
//! token kind; an empty right side is the empty word.
use vstd::prelude::*;

verus! {

/// A symbol named in the text of a rule.
#[derive(Debug)]
pub enum RuleName {
    NonTerm(String),
    Term(String),
    Epsilon,
}

/// A rule as written: the name of its left side and the symbols of its
/// right side.
#[derive(Debug)]
pub struct RuleText {
    pub lhs: String,
    pub rhs: Vec<RuleName>,
}

/// A symbol named in a rule, as characters.
pub enum NameView {
    NonTerm(Seq<char>),
    Term(Seq<char>),
    Epsilon,
}

pub open spec fn name_view(n: RuleName) -> NameView {
    match n {
        RuleName::NonTerm(s) => NameView::NonTerm(s@),
        RuleName::Term(s) => NameView::Term(s@),
        RuleName::Epsilon => NameView::Epsilon,
    }
}

pub open spec fn names_view(v: Seq<RuleName>) -> Seq<NameView> {
    Seq::new(v.len(), |i: int| name_view(v[i]))
}

/// Unicode white space, as `char::is_whitespace` defines it.
pub open spec fn is_ws(c: char) -> bool {
    let u = c as u32;
    (0x09 <= u <= 0x0D) || u == 0x20 || u == 0x85 || u == 0xA0 || u == 0x1680 || (0x2000 <= u <= 0x200A) || u == 0x2028
        || u == 0x2029 || u == 0x202F || u == 0x205F || u == 0x3000
}

pub open spec fn is_ascii_char(c: char) -> bool {
    (c as u32) < 128
}

/// Whether `c` is white space.
pub fn is_whitespace(c: char) -> (res: bool)
    ensures
        res == is_ws(c),
{
    let u = c as u32;
    (0x09 <= u && u <= 0x0D) || u == 0x20 || u == 0x85 || u == 0xA0 || u == 0x1680 || (0x2000 <= u && u <= 0x200A)
        || u == 0x2028 || u == 0x2029 || u == 0x202F || u == 0x205F || u == 0x3000
}

/// `::=` starts at position `i` of `s`.
pub open spec fn sep_at(s: Seq<char>, i: int) -> bool {
    0 <= i && i + 3 <= s.len() && s[i] == ':' && s[i + 1] == ':' && s[i + 2] == '='
}

/// The position of the first `::=` in `s` from `i` on, or `s.len()`.
pub open spec fn first_sep(s: Seq<char>, i: int) -> int
    decreases s.len() - i,
{
    if i >= s.len() {
        s.len() as int
    } else if sep_at(s, i) {
        i
    } else {
        first_sep(s, i + 1)
    }
}

/// `s` with every `::=` taken out, scanning from the left.
pub open spec fn remove_seps(s: Seq<char>) -> Seq<char>
    decreases s.len(),
{
    if s.len() == 0 {
        seq![]
    } else if sep_at(s, 0) {
        remove_seps(s.subrange(3, s.len() as int))
    } else {
        seq![s[0]] + remove_seps(s.drop_first())
    }
}

/// The position of the first character of `s` from `i` on that is not
/// white space, or `s.len()`.
pub open spec fn skip_ws(s: Seq<char>, i: int) -> int
    decreases s.len() - i,
{
    if i >= s.len() || !is_ws(s[i]) {
        i
    } else {
        skip_ws(s, i + 1)
    }
}

/// The end of the word that starts at `i`.
pub open spec fn word_end(s: Seq<char>, i: int) -> int
    decreases s.len() - i,
{
    if i >= s.len() || is_ws(s[i]) {
        i
    } else {
        word_end(s, i + 1)
    }
}

/// The position after the last character of `s[..j]` that is not white
/// space, or 0.
pub open spec fn trail_ws(s: Seq<char>, j: int) -> int
    decreases j,
{
    if j <= 0 || !is_ws(s[j - 1]) {
        j
    } else {
        trail_ws(s, j - 1)
    }
}

/// `s` without white space at either end.
pub open spec fn trim(s: Seq<char>) -> Seq<char> {
    let a = skip_ws(s, 0);
    if a >= s.len() {
        seq![]
    } else {
        s.subrange(a, trail_ws(s, s.len() as int))
    }
}

pub proof fn lemma_skip_ws(s: Seq<char>, i: int)
    requires
        0 <= i,
    ensures
        i <= skip_ws(s, i),
        i <= s.len() ==> skip_ws(s, i) <= s.len(),
        skip_ws(s, i) < s.len() ==> !is_ws(s[skip_ws(s, i)]),
        forall|k: int| i <= k < skip_ws(s, i) ==> is_ws(#[trigger] s[k]),
    decreases s.len() - i,
{
    if i < s.len() && is_ws(s[i]) {
        lemma_skip_ws(s, i + 1);
    }
}

pub proof fn lemma_word_end(s: Seq<char>, i: int)
    requires
        0 <= i,
    ensures
        i <= word_end(s, i),
        i <= s.len() ==> word_end(s, i) <= s.len(),
        i < s.len() && !is_ws(s[i]) ==> i < word_end(s, i),
        word_end(s, i) < s.len() ==> is_ws(s[word_end(s, i)]),
        forall|k: int| i <= k < word_end(s, i) ==> !is_ws(#[trigger] s[k]),
    decreases s.len() - i,
{
    if i < s.len() && !is_ws(s[i]) {
        lemma_word_end(s, i + 1);
    }
}

pub proof fn lemma_trail_ws(s: Seq<char>, j: int)
    requires
        j <= s.len(),
    ensures
        trail_ws(s, j) <= j,
        j >= 0 ==> trail_ws(s, j) >= 0,
        trail_ws(s, j) > 0 ==> !is_ws(s[trail_ws(s, j) - 1]),
        forall|k: int| trail_ws(s, j) <= k < j ==> is_ws(#[trigger] s[k]),
    decreases j,
{
    if j > 0 && is_ws(s[j - 1]) {
        lemma_trail_ws(s, j - 1);
    }
}

/// The words of `s` from `i` on: the maximal runs of characters that are
/// not white space.
pub open spec fn words_from(s: Seq<char>, i: int) -> Seq<Seq<char>>
    decreases s.len() - i,
{
    if i < 0 || i >= s.len() {
        seq![]
    } else if is_ws(s[i]) {
        words_from(s, i + 1)
    } else {
        let j = word_end(s, i);
        proof {
            lemma_word_end(s, i);
        }
        seq![s.subrange(i, j)] + words_from(s, j)
    }
}

/// The symbol that a word of the right side names: a word in angle brackets
/// is a nonterminal, any other word a token kind.
pub open spec fn word_name(w: Seq<char>) -> NameView {
    if w.len() > 0 && w[0] == '<' {
        NameView::NonTerm(w.subrange(1, w.len() - 1))
    } else {
        NameView::Term(w)
    }
}

/// The left side of the rule text `s`, trimmed.
pub open spec fn lhs_text(s: Seq<char>) -> Seq<char> {
    trim(s.subrange(0, first_sep(s, 0)))
}

/// The right side of the rule text `s`: what follows the first `::=`, with
/// every further `::=` taken out.
pub open spec fn rhs_text(s: Seq<char>) -> Seq<char> {
    let k = first_sep(s, 0);
    if k >= s.len() {
        seq![]
    } else {
        remove_seps(s.subrange(k + 3, s.len() as int))
    }
}

/// The symbols of the right side of the rule text `s`; the empty word when
/// there is none.
pub open spec fn rhs_names(s: Seq<char>) -> Seq<NameView> {
    let ws = words_from(rhs_text(s), 0);
    if ws.len() == 0 {
        seq![NameView::Epsilon]
    } else {
        Seq::new(ws.len(), |i: int| word_name(ws[i]))
    }
}

/// The rule text can be read: the left side, trimmed, has at least two
/// characters and begins and ends with ASCII characters (such as `<` and
/// `>`), and every word of the right side that begins with `<` has at least
/// two characters and ends with an ASCII character.
pub open spec fn rule_text_ok(s: Seq<char>) -> bool {
    let l = lhs_text(s);
    let ws = words_from(rhs_text(s), 0);
    &&& l.len() >= 2
    &&& is_ascii_char(l[0])
    &&& is_ascii_char(l[l.len() - 1])
    &&& forall|i: int| 0 <= i < ws.len() && (#[trigger] ws[i])[0] == '<' ==> ws[i].len() >= 2 && is_ascii_char(ws[i][ws[i].len() - 1])
}

pub open spec fn strs_view(v: Seq<String>) -> Seq<Seq<char>> {
    Seq::new(v.len(), |i: int| v[i]@)
}

/// Whether `::=` starts at position `i` of `s` (`n` characters).
fn sep_at_exec(s: &str, n: usize, i: usize) -> (res: bool)
    requires
        n == s@.len(),
    ensures
        res == sep_at(s@, i as int),
{
    if i < n && n - i >= 3 {
        s.get_char(i) == ':' && s.get_char(i + 1) == ':' && s.get_char(i + 2) == '='
    } else {
        false
    }
}

/// The position of the first `::=` in `s`, or its length.
fn find_sep(s: &str, n: usize) -> (res: usize)
    requires
        n == s@.len(),
    ensures
        res == first_sep(s@, 0),
{
    let mut i: usize = 0;
    while i < n
        invariant
            n == s@.len(),
            i <= n,
            first_sep(s@, 0) == first_sep(s@, i as int),
        decreases n - i,
    {
        if sep_at_exec(s, n, i) {
            return i;
        }
        i = i + 1;
    }
    i
}

/// `s[from..]` with every `::=` taken out.
fn remove_seps_from(s: &str, n: usize, from: usize) -> (res: String)
    requires
        n == s@.len(),
        from <= n,
    ensures
        res@ == remove_seps(s@.subrange(from as int, n as int)),
{
    let ghost t = s@.subrange(from as int, n as int);
    let mut out = String::new();
    let mut j: usize = from;
    while j < n
        invariant
            n == s@.len(),
            from <= j <= n,
            t == s@.subrange(from as int, n as int),
            remove_seps(t) == out@ + remove_seps(s@.subrange(j as int, n as int)),
        decreases n - j,
    {
        let ghost u = s@.subrange(j as int, n as int);
        if sep_at_exec(s, n, j) {
            assert(sep_at(u, 0));
            assert(u.subrange(3, u.len() as int) == s@.subrange(j + 3, n as int));
            j = j + 3;
        } else {
            assert(!sep_at(u, 0));
            assert(u.drop_first() == s@.subrange(j + 1, n as int));
            let c = s.substring_char(j, j + 1);
            let ghost old_out = out@;
            out.append(c);
            assert(c@ == seq![u[0]]);
            assert(old_out + (seq![u[0]] + remove_seps(u.drop_first())) == out@ + remove_seps(u.drop_first()));
            j = j + 1;
        }
    }
    assert(s@.subrange(n as int, n as int) == Seq::<char>::empty());
    assert(out@ + Seq::<char>::empty() == out@);
    out
}

/// `s` without white space at either end.
pub fn trim_str(s: &str) -> (res: String)
    ensures
        res@ == trim(s@),
{
    let n = s.unicode_len();
    let mut a: usize = 0;
    while a < n && is_whitespace(s.get_char(a))
        invariant
            n == s@.len(),
            a <= n,
            skip_ws(s@, 0) == skip_ws(s@, a as int),
        decreases n - a,
    {
        a = a + 1;
    }
    if a >= n {
        return String::new();
    }
    let mut b: usize = n;
    while b > 0 && is_whitespace(s.get_char(b - 1))
        invariant
            n == s@.len(),
            b <= n,
            trail_ws(s@, n as int) == trail_ws(s@, b as int),
        decreases b,
    {
        b = b - 1;
    }
    proof {
        lemma_trail_ws(s@, n as int);
        assert(!is_ws(s@[a as int]));
        assert(trail_ws(s@, n as int) > a) by {
            if trail_ws(s@, n as int) <= a {
                assert(is_ws(s@[a as int]));
            }
        }
    }
    String::from_str(s.substring_char(a, b))
}

/// The words of `s`: its maximal runs of characters that are not white
/// space.
pub fn split_words(s: &str) -> (res: Vec<String>)
    ensures
        strs_view(res@) == words_from(s@, 0),
{
    let n = s.unicode_len();
    let mut res: Vec<String> = Vec::new();
    let mut i: usize = 0;
    while i < n
        invariant
            n == s@.len(),
            i <= n,
            words_from(s@, 0) == strs_view(res@) + words_from(s@, i as int),
        decreases n - i,
    {
        if is_whitespace(s.get_char(i)) {
            i = i + 1;
        } else {
            let mut j: usize = i;
            while j < n && !is_whitespace(s.get_char(j))
                invariant
                    n == s@.len(),
                    i <= j <= n,
                    word_end(s@, i as int) == word_end(s@, j as int),
                decreases n - j,
            {
                j = j + 1;
            }
            proof {
                lemma_word_end(s@, i as int);
            }
            let w = String::from_str(s.substring_char(i, j));
            let ghost old_res = res@;
            res.push(w);
            proof {
                assert(strs_view(res@) == strs_view(old_res).push(s@.subrange(i as int, j as int)));
                assert(words_from(s@, i as int) == seq![s@.subrange(i as int, j as int)] + words_from(s@, j as int));
                assert(strs_view(old_res) + (seq![s@.subrange(i as int, j as int)] + words_from(s@, j as int))
                    == strs_view(res@) + words_from(s@, j as int));
            }
            i = j;
        }
    }
    assert(strs_view(res@) + Seq::<Seq<char>>::empty() == strs_view(res@));
    res
}

/// The symbol that a word names.
fn name_of_word(w: String) -> (res: RuleName)
    requires
        w@.len() > 0 && w@[0] == '<' ==> w@.len() >= 2 && is_ascii_char(w@[w@.len() - 1]),
    ensures
        name_view(res) == word_name(w@),
{
    let n = w.as_str().unicode_len();
    if n > 0 && w.as_str().get_char(0) == '<' {
        RuleName::NonTerm(String::from_str(w.as_str().substring_char(1, n - 1)))
    } else {
        RuleName::Term(w)
    }
}

/// Reads the text of a rule: the trimmed text before the first `::=`
/// without its first and last characters (the angle brackets) names the
/// left side; the words after it (every further `::=` taken out) name the
/// symbols of the right side, a word in angle brackets a nonterminal
/// (without the brackets) and any other word a token kind; no word at all
/// is the empty word.
pub fn parse_rule(input: &str) -> (res: RuleText)
    requires
        rule_text_ok(input@),
    ensures
        res.lhs@ == lhs_text(input@).subrange(1, lhs_text(input@).len() - 1),
        names_view(res.rhs@) == rhs_names(input@),
{
    let n = input.unicode_len();
    let k = find_sep(input, n);
    proof {
        lemma_first_sep(input@, 0);
    }
    let lhs_raw = input.substring_char(0, k);
    let lhs_trim = trim_str(lhs_raw);
    let ln = lhs_trim.as_str().unicode_len();
    let lhs = String::from_str(lhs_trim.as_str().substring_char(1, ln - 1));
    let rest = if k < n {
        remove_seps_from(input, n, k + 3)
    } else {
        String::new()
    };
    let words = split_words(rest.as_str());
    let mut rhs: Vec<RuleName> = Vec::new();
    if words.len() == 0 {
        rhs.push(RuleName::Epsilon);
        assert(names_view(rhs@) == seq![NameView::Epsilon]);
    } else {
        let ghost ws = words_from(rhs_text(input@), 0);
        assert(strs_view(words@) == ws);
        let mut words = words;
        let wn = words.len();
        let mut rev: Vec<String> = Vec::new();
        while words.len() > 0
            invariant
                wn == ws.len(),
                words@.len() + rev@.len() == wn,
                forall|q: int| 0 <= q < words@.len() ==> (#[trigger] words@[q])@ == ws[q],
                forall|q: int| 0 <= q < rev@.len() ==> (#[trigger] rev@[q])@ == ws[wn - 1 - q],
            decreases words@.len(),
        {
            let w = words.pop().unwrap();
            rev.push(w);
        }
        while rev.len() > 0
            invariant
                wn == ws.len(),
                rule_text_ok(input@),
                ws == words_from(rhs_text(input@), 0),
                rhs@.len() + rev@.len() == wn,
                forall|q: int| 0 <= q < rev@.len() ==> (#[trigger] rev@[q])@ == ws[wn - 1 - q],
                forall|q: int| 0 <= q < rhs@.len() ==> name_view(#[trigger] rhs@[q]) == word_name(ws[q]),
            decreases rev@.len(),
        {
            let w = rev.pop().unwrap();
            let ghost q = rhs@.len() as int;
            assert(w@ == ws[q]);
            assert(w@.len() > 0 && w@[0] == '<' ==> w@.len() >= 2 && is_ascii_char(w@[w@.len() - 1])) by {
                if w@.len() > 0 && w@[0] == '<' {
                    assert(ws[q][0] == '<');
                }
            }
            rhs.push(name_of_word(w));
        }
        assert(names_view(rhs@) == Seq::new(ws.len(), |i: int| word_name(ws[i])));
    }
    RuleText { lhs, rhs }
}

proof fn lemma_first_sep(s: Seq<char>, i: int)
    requires
        0 <= i,
    ensures
        i <= s.len() ==> first_sep(s, i) <= s.len(),
        first_sep(s, i) < s.len() ==> sep_at(s, first_sep(s, i)),
    decreases s.len() - i,
{
    if i < s.len() && !sep_at(s, i) {
        lemma_first_sep(s, i + 1);
    }
}

/// Whether the rule text can be read (see `rule_text_ok`).
pub fn is_rule_text_ok(input: &str) -> (res: bool)
    ensures
        res == rule_text_ok(input@),
{
    let n = input.unicode_len();
    let k = find_sep(input, n);
    proof {
        lemma_first_sep(input@, 0);
    }
    let lhs_trim = trim_str(input.substring_char(0, k));
    let ln = lhs_trim.as_str().unicode_len();
    if ln < 2 || !((lhs_trim.as_str().get_char(0) as u32) < 128) || !((lhs_trim.as_str().get_char(ln - 1) as u32) < 128) {
        return false;
    }
    let rest = if k < n {
        remove_seps_from(input, n, k + 3)
    } else {
        String::new()
    };
    let words = split_words(rest.as_str());
    let ghost ws = words_from(rhs_text(input@), 0);
    assert(strs_view(words@) == ws);
    let mut i: usize = 0;
    while i < words.len()
        invariant
            strs_view(words@) == ws,
            ws == words_from(rhs_text(input@), 0),
            i <= words@.len(),
            forall|q: int| 0 <= q < i && (#[trigger] ws[q])[0] == '<' ==> ws[q].len() >= 2 && is_ascii_char(ws[q][ws[q].len() - 1]),
        decreases words@.len() - i,
    {
        let w = words[i].as_str();
        assert(w@ == ws[i as int]);
        let wn = w.unicode_len();
        proof {
            lemma_words_nonempty(rhs_text(input@), 0);
            assert(words_from(rhs_text(input@), 0)[i as int].len() > 0);
        }
        assert(wn > 0);
        if w.get_char(0) == '<' && (wn < 2 || !((w.get_char(wn - 1) as u32) < 128)) {
            proof {
                let wq = ws[i as int];
                assert(wq[0] == '<');
                assert(!(wq.len() >= 2 && is_ascii_char(wq[wq.len() - 1])));
                assert(!rule_text_ok(input@));
            }
            return false;
        }
        i = i + 1;
    }
    true
}

/// Every word is nonempty.
proof fn lemma_words_nonempty(s: Seq<char>, i: int)
    ensures
        forall|q: int| 0 <= q < words_from(s, i).len() ==> (#[trigger] words_from(s, i)[q]).len() > 0,
    decreases s.len() - i,
{
    if 0 <= i < s.len() {
        if is_ws(s[i]) {
            lemma_words_nonempty(s, i + 1);
            assert(words_from(s, i) == words_from(s, i + 1));
        } else {
            let j = word_end(s, i);
            lemma_word_end(s, i);
            lemma_words_nonempty(s, j);
            let r = words_from(s, i);
            assert(r == seq![s.subrange(i, j)] + words_from(s, j));
            assert forall|q: int| 0 <= q < r.len() implies (#[trigger] r[q]).len() > 0 by {
                if q > 0 {
                    assert(r[q] == words_from(s, j)[q - 1]);
                } else {
                    assert(r[0] == s.subrange(i, j));
                    assert(i < j);
                }
            }
        }
    }
}

} // verus!
