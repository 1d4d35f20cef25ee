//! Re-anchoring relative dependency paths in a manifest's text.
//!
//! The rewrite is a plain textual substitution, not a parse: every occurrence
//! of one of four `path` spellings gets the base directory and a slash
//! inserted right after its opening quote, wherever it stands.

use vstd::prelude::*;
use vstd::std_specs::iter::IteratorSpec;

verus! {

broadcast use vstd::string::group_string_axioms;

/// `pat` stands in `s` at position `i`.
pub open spec fn occurs_at(s: Seq<char>, pat: Seq<char>, i: int) -> bool {
    0 <= i && i + pat.len() <= s.len() && s.subrange(i, i + pat.len()) == pat
}

/// Left-to-right replacement of non-overlapping occurrences of `pat` by `rep`.
pub open spec fn replace_all(s: Seq<char>, pat: Seq<char>, rep: Seq<char>) -> Seq<char>
    decreases s.len(),
{
    if s.len() == 0 {
        s
    } else if pat.len() > 0 && occurs_at(s, pat, 0) {
        rep + replace_all(s.skip(pat.len() as int), pat, rep)
    } else {
        seq![s[0]] + replace_all(s.skip(1), pat, rep)
    }
}


/// The key and the opening quote of a path value: `path = "`, `path="`,
/// `path = '` or `path='`.
pub open spec fn opener(spaced: bool, quote: char) -> Seq<char> {
    seq!['p', 'a', 't', 'h'] + (if spaced {
        seq![' ', '=', ' ']
    } else {
        seq!['=']
    }) + seq![quote]
}

pub open spec fn is_quote(c: char) -> bool {
    c == '"' || c == '\''
}

/// What an opener becomes: the base directory and a slash follow the quote.
pub open spec fn anchored(spaced: bool, quote: char, base: Seq<char>) -> Seq<char> {
    opener(spaced, quote) + base + seq!['/']
}

pub open spec fn qualify_step(text: Seq<char>, spaced: bool, quote: char, base: Seq<char>) -> Seq<char> {
    replace_all(text, opener(spaced, quote), anchored(spaced, quote, base))
}

/// The manifest text with every path value re-anchored at `base`, one
/// spelling after the other.
pub open spec fn qualified(text: Seq<char>, base: Seq<char>) -> Seq<char> {
    let t1 = qualify_step(text, true, '"', base);
    let t2 = qualify_step(t1, false, '"', base);
    let t3 = qualify_step(t2, true, '\'', base);
    qualify_step(t3, false, '\'', base)
}

/// Every quote in `s` is escaped by a backslash right before it.
pub open spec fn quotes_escaped(s: Seq<char>) -> bool {
    forall|k: int| 0 <= k < s.len() && is_quote(#[trigger] s[k]) ==> k > 0 && s[k - 1] == '\\'
}

/// A character that escaping leaves as it is: printable ASCII other than a
/// backslash or a quote.
pub open spec fn kept_by_escape(c: char) -> bool {
    0x20 <= (c as u32) <= 0x7e && c != '\\' && !is_quote(c)
}

pub uninterp spec fn escape_default_of(s: Seq<char>) -> Seq<char>;

/// Relies on `str::escape_default`, which escapes each char as
/// `char::escape_default` does: printable ASCII other than `\`, `'` and `"`
/// stays as it is, and a quote only ever comes out as `\'` or `\"`.
#[verifier::external_body]
fn escape_default(s: &str) -> (r: String)
    ensures
        r@ == escape_default_of(s@),
        (forall|i: int| 0 <= i < s@.len() ==> kept_by_escape(#[trigger] s@[i])) ==> r@ == s@,
        quotes_escaped(r@),
{
    s.escape_default().to_string()
}

/// Relies on `String::push`: appends one char at the end.
#[verifier::external_body]
fn push_char(s: &mut String, c: char)
    ensures
        final(s)@ == old(s)@.push(c),
{
    s.push(c);
}

fn chars_of(s: &str) -> (r: Vec<char>)
    ensures
        r@ == s@,
{
    broadcast use vstd::string::next_postcondition;

    let mut it = s.chars();
    let mut r: Vec<char> = Vec::new();
    loop
        invariant
            it.obeys_prophetic_iter_laws(),
            r@ + it.remaining() == s@,
        ensures
            r@ == s@,
        decreases s@.len() - r@.len(),
    {
        match it.next() {
            Some(c) => {
                r.push(c);
            },
            None => {
                assert(r@ =~= s@);
                break;
            },
        }
    }
    r
}

fn string_of(v: &Vec<char>) -> (r: String)
    ensures
        r@ == v@,
{
    let mut r = String::new();
    let mut i: usize = 0;
    while i < v.len()
        invariant
            i <= v.len(),
            r@ == v@.take(i as int),
        decreases v.len() - i,
    {
        push_char(&mut r, v[i]);
        i = i + 1;
        assert(r@ =~= v@.take(i as int));
    }
    assert(r@ =~= v@);
    r
}

fn matches_at(s: &Vec<char>, pat: &Vec<char>, i: usize) -> (r: bool)
    requires
        i <= s.len(),
    ensures
        r == occurs_at(s@, pat@, i as int),
{
    if pat.len() > s.len() - i {
        return false;
    }
    let mut j: usize = 0;
    while j < pat.len()
        invariant
            j <= pat.len(),
            i + pat.len() <= s.len(),
            forall|k: int| 0 <= k < j ==> s@[i + k] == pat@[k],
        decreases pat.len() - j,
    {
        if s[i + j] != pat[j] {
            assert(s@.subrange(i as int, i + pat.len())[j as int] != pat@[j as int]);
            return false;
        }
        j = j + 1;
    }
    assert(s@.subrange(i as int, i + pat.len()) =~= pat@);
    true
}

proof fn lemma_replace_all_skip(s: Seq<char>, pat: Seq<char>, rep: Seq<char>, i: int)
    requires
        0 <= i < s.len(),
    ensures
        replace_all(s.skip(i), pat, rep) == if pat.len() > 0 && occurs_at(s, pat, i) {
            rep + replace_all(s.skip(i + pat.len()), pat, rep)
        } else {
            seq![s[i]] + replace_all(s.skip(i + 1), pat, rep)
        },
{
    let t = s.skip(i);
    if pat.len() > 0 && i + pat.len() <= s.len() {
        assert(t.subrange(0, pat.len() as int) =~= s.subrange(i, i + pat.len()));
        assert(t.skip(pat.len() as int) =~= s.skip(i + pat.len()));
    }
    assert(t.skip(1) =~= s.skip(i + 1));
}

fn replace_chars(s: &Vec<char>, pat: &Vec<char>, rep: &Vec<char>) -> (r: Vec<char>)
    requires
        pat.len() > 0,
    ensures
        r@ == replace_all(s@, pat@, rep@),
{
    let mut out: Vec<char> = Vec::new();
    let mut i: usize = 0;
    assert(s@.skip(0) =~= s@);
    while i < s.len()
        invariant
            i <= s.len(),
            pat.len() > 0,
            replace_all(s@, pat@, rep@) == out@ + replace_all(s@.skip(i as int), pat@, rep@),
        decreases s.len() - i,
    {
        proof {
            lemma_replace_all_skip(s@, pat@, rep@, i as int);
        }
        if matches_at(s, pat, i) {
            let mut k: usize = 0;
            let ghost before = out@;
            while k < rep.len()
                invariant
                    k <= rep.len(),
                    out@ == before + rep@.take(k as int),
                decreases rep.len() - k,
            {
                out.push(rep[k]);
                k = k + 1;
                assert(out@ =~= before + rep@.take(k as int));
            }
            assert(rep@.take(rep.len() as int) =~= rep@);
            assert(out@ + replace_all(s@.skip(i + pat.len()), pat@, rep@) =~= before + (rep@
                + replace_all(s@.skip(i + pat.len()), pat@, rep@)));
            i = i + pat.len();
        } else {
            let ghost before = out@;
            out.push(s[i]);
            assert(out@ + replace_all(s@.skip(i + 1), pat@, rep@) =~= before + (seq![s@[i as int]]
                + replace_all(s@.skip(i + 1), pat@, rep@)));
            i = i + 1;
        }
    }
    assert(s@.skip(i as int).len() == 0);
    assert(out@ + replace_all(s@.skip(i as int), pat@, rep@) =~= out@);
    out
}


fn opener_chars(spaced: bool, quote: char) -> (r: Vec<char>)
    ensures
        r@ == opener(spaced, quote),
{
    let r = if spaced {
        vec!['p', 'a', 't', 'h', ' ', '=', ' ', quote]
    } else {
        vec!['p', 'a', 't', 'h', '=', quote]
    };
    assert(r@ =~= opener(spaced, quote));
    r
}

fn qualify_chars(text: &Vec<char>, spaced: bool, quote: char, base: &Vec<char>) -> (r: Vec<char>)
    ensures
        r@ == qualify_step(text@, spaced, quote, base@),
{
    let pat = opener_chars(spaced, quote);
    let mut rep = opener_chars(spaced, quote);
    let mut k: usize = 0;
    while k < base.len()
        invariant
            k <= base.len(),
            rep@ == opener(spaced, quote) + base@.take(k as int),
        decreases base.len() - k,
    {
        rep.push(base[k]);
        k = k + 1;
        assert(rep@ =~= opener(spaced, quote) + base@.take(k as int));
    }
    rep.push('/');
    assert(rep@ =~= anchored(spaced, quote, base@));
    replace_chars(text, &pat, &rep)
}

/// Re-anchors the path values of a manifest at a base directory that is
/// already in escaped form.
pub fn qualify_paths_with_escaped_base(text: &str, escaped_base: &str) -> (r: String)
    ensures
        r@ == qualified(text@, escaped_base@),
{
    let t0 = chars_of(text);
    let base = chars_of(escaped_base);
    let t1 = qualify_chars(&t0, true, '"', &base);
    let t2 = qualify_chars(&t1, false, '"', &base);
    let t3 = qualify_chars(&t2, true, '\'', &base);
    let t4 = qualify_chars(&t3, false, '\'', &base);
    string_of(&t4)
}

/// Re-anchors the path values of a manifest at `base_dir`, which is escaped
/// for a quoted string first.
pub fn qualify_cargo_toml_paths_in_text(cargo_toml_content: &str, base_dir: &str) -> (r: String)
    ensures
        r@ == qualified(cargo_toml_content@, escape_default_of(base_dir@)),
        quotes_escaped(escape_default_of(base_dir@)),
        (forall|i: int| 0 <= i < base_dir@.len() ==> kept_by_escape(#[trigger] base_dir@[i])) ==> r@
            == qualified(cargo_toml_content@, base_dir@),
{
    let escaped = escape_default(base_dir);
    qualify_paths_with_escaped_base(cargo_toml_content, escaped.as_str())
}


/// The only path opener in `text`, of any spelling, is the one with these
/// spacing and quote at position `at`.
pub open spec fn sole_literal(text: Seq<char>, spaced: bool, quote: char, at: int) -> bool {
    forall|sp: bool, q: char, i: int|
        is_quote(q) && #[trigger] occurs_at(text, opener(sp, q), i) ==> sp == spaced && q == quote
            && i == at
}

proof fn lemma_opener_shape(spaced: bool, quote: char)
    ensures
        opener(spaced, quote).len() == if spaced { 8int } else { 6int },
        opener(spaced, quote)[opener(spaced, quote).len() - 1] == quote,
        opener(spaced, quote)[opener(spaced, quote).len() - 2] == '=' || opener(spaced, quote)[
            opener(spaced, quote).len() - 2] == ' ',
        forall|j: int|
            0 <= j < opener(spaced, quote).len() - 1 ==> {
                let c = #[trigger] opener(spaced, quote)[j];
                !is_quote(c) && c != '/'
            },
        opener(spaced, quote)[0] == 'p',
        opener(spaced, quote)[4] == if spaced { ' ' } else { '=' },
        forall|j: int|
            1 <= j < opener(spaced, quote).len() - 1 ==> #[trigger] opener(spaced, quote)[j] != 'p',
{
    if spaced {
        assert(opener(spaced, quote) =~= seq!['p', 'a', 't', 'h', ' ', '=', ' ', quote]);
    } else {
        assert(opener(spaced, quote) =~= seq!['p', 'a', 't', 'h', '=', quote]);
    }
}

proof fn lemma_occurs_elem(s: Seq<char>, pat: Seq<char>, i: int)
    requires
        occurs_at(s, pat, i),
    ensures
        forall|j: int| 0 <= j < pat.len() ==> s[i + j] == #[trigger] pat[j],
{
    assert forall|j: int| 0 <= j < pat.len() implies s[i + j] == #[trigger] pat[j] by {
        assert(s.subrange(i, i + pat.len())[j] == s[i + j]);
    }
}

proof fn lemma_replace_absent(s: Seq<char>, pat: Seq<char>, rep: Seq<char>)
    requires
        pat.len() > 0,
        forall|i: int| !#[trigger] occurs_at(s, pat, i),
    ensures
        replace_all(s, pat, rep) == s,
    decreases s.len(),
{
    if s.len() > 0 {
        let t = s.skip(1);
        assert forall|i: int| !#[trigger] occurs_at(t, pat, i) by {
            if occurs_at(t, pat, i) {
                assert(s.subrange(i + 1, i + 1 + pat.len()) =~= t.subrange(i, i + pat.len()));
                assert(occurs_at(s, pat, i + 1));
            }
        }
        lemma_replace_absent(t, pat, rep);
        assert(seq![s[0]] + t =~= s);
        assert(!occurs_at(s, pat, 0));
    }
}

proof fn lemma_replace_clean_prefix(a: Seq<char>, b: Seq<char>, pat: Seq<char>, rep: Seq<char>)
    requires
        pat.len() > 0,
        forall|i: int| 0 <= i < a.len() ==> !#[trigger] occurs_at(a + b, pat, i),
    ensures
        replace_all(a + b, pat, rep) == a + replace_all(b, pat, rep),
    decreases a.len(),
{
    if a.len() == 0 {
        assert(a + b =~= b);
        assert(a + replace_all(b, pat, rep) =~= replace_all(b, pat, rep));
    } else {
        let a1 = a.skip(1);
        assert((a + b).skip(1) =~= a1 + b);
        assert forall|i: int| 0 <= i < a1.len() implies !#[trigger] occurs_at(a1 + b, pat, i) by {
            if occurs_at(a1 + b, pat, i) {
                assert((a + b).subrange(i + 1, i + 1 + pat.len()) =~= (a1 + b).subrange(
                    i,
                    i + pat.len(),
                ));
                assert(occurs_at(a + b, pat, i + 1));
            }
        }
        lemma_replace_clean_prefix(a1, b, pat, rep);
        assert(!occurs_at(a + b, pat, 0));
        assert((a + b)[0] == a[0]);
        assert(seq![a[0]] + (a1 + replace_all(b, pat, rep)) =~= a + replace_all(b, pat, rep));
    }
}

/// Rewriting a text whose sole opener sits at `pre.len()` inserts the base
/// there and leaves the rest as it was.
proof fn lemma_step_on_sole(pre: Seq<char>, post: Seq<char>, spaced: bool, quote: char, base: Seq<char>)
    requires
        is_quote(quote),
        sole_literal(pre + opener(spaced, quote) + post, spaced, quote, pre.len() as int),
    ensures
        qualify_step(pre + opener(spaced, quote) + post, spaced, quote, base) == pre + anchored(
            spaced,
            quote,
            base,
        ) + post,
{
    let op = opener(spaced, quote);
    let text = pre + op + post;
    lemma_opener_shape(spaced, quote);
    assert(text =~= pre + (op + post));
    assert forall|i: int| 0 <= i < pre.len() implies !#[trigger] occurs_at(pre + (op + post), op, i) by {
        if occurs_at(pre + (op + post), op, i) {
            assert(occurs_at(text, opener(spaced, quote), i));
        }
    }
    lemma_replace_clean_prefix(pre, op + post, op, anchored(spaced, quote, base));
    assert((op + post).subrange(0, op.len() as int) =~= op);
    assert((op + post).skip(op.len() as int) =~= post);
    assert forall|i: int| !#[trigger] occurs_at(post, op, i) by {
        if occurs_at(post, op, i) {
            let at = pre.len() + op.len() + i;
            assert(text.subrange(at, at + op.len()) =~= post.subrange(i, i + op.len()));
            assert(occurs_at(text, opener(spaced, quote), at));
        }
    }
    lemma_replace_absent(post, op, anchored(spaced, quote, base));
    assert(pre + (anchored(spaced, quote, base) + post) =~= pre + anchored(spaced, quote, base)
        + post);
}

/// Inserting an escaped base after the sole opener creates no new opener.
proof fn lemma_anchored_stays_sole(pre: Seq<char>, post: Seq<char>, spaced: bool, quote: char, base: Seq<char>)
    requires
        is_quote(quote),
        quotes_escaped(base),
        sole_literal(pre + opener(spaced, quote) + post, spaced, quote, pre.len() as int),
    ensures
        sole_literal(pre + anchored(spaced, quote, base) + post, spaced, quote, pre.len() as int),
{
    let op = opener(spaced, quote);
    let text = pre + op + post;
    let out = pre + anchored(spaced, quote, base) + post;
    let q0: int = (pre.len() + op.len()) as int;
    let sl: int = q0 + base.len();
    lemma_opener_shape(spaced, quote);
    assert forall|sp: bool, q: char, i: int|
        is_quote(q) && #[trigger] occurs_at(out, opener(sp, q), i) implies sp == spaced && q
        == quote && i == pre.len() by {
        let o = opener(sp, q);
        lemma_opener_shape(sp, q);
        lemma_occurs_elem(out, o, i);
        let k = i + o.len() - 1;
        assert(out[k] == o[o.len() - 1]);
        assert(out[k - 1] == o[o.len() - 2]);
        if k < q0 {
            assert(text.subrange(i, i + o.len()) =~= out.subrange(i, i + o.len()));
            assert(occurs_at(text, o, i));
        } else if k < sl {
            assert(out[k] == base[k - q0]);
            if k == q0 {
                assert(out[k - 1] == text[k - 1]);
                assert(text[k - 1] == op[op.len() - 1]);
            } else {
                assert(out[k - 1] == base[k - q0 - 1]);
            }
        } else if k == sl {
            assert(out[k] == '/');
        } else if i <= sl {
            assert(out[sl] == o[sl - i]);
        } else {
            let i2 = i - base.len() - 1;
            assert forall|j: int| 0 <= j < o.len() implies #[trigger] text[i2 + j] == out[i + j] by {
            }
            assert(text.subrange(i2, i2 + o.len()) =~= o);
            assert(occurs_at(text, o, i2));
        }
    }
}


proof fn lemma_step_skips(t: Seq<char>, sp: bool, q: char, spaced: bool, quote: char, at: int, base: Seq<char>)
    requires
        is_quote(q),
        sole_literal(t, spaced, quote, at),
        !(sp == spaced && q == quote),
    ensures
        qualify_step(t, sp, q, base) == t,
{
    lemma_opener_shape(sp, q);
    assert forall|i: int| !#[trigger] occurs_at(t, opener(sp, q), i) by {}
    lemma_replace_absent(t, opener(sp, q), anchored(sp, q, base));
}

/// For each of the four spellings: a manifest whose only path opener is one
/// such literal comes back with the (escaped) base directory and a slash
/// inserted right after that literal's opening quote, and with every other
/// character as it was.
pub proof fn lemma_sole_literal_gains_base(
    pre: Seq<char>,
    post: Seq<char>,
    spaced: bool,
    quote: char,
    base: Seq<char>,
)
    requires
        is_quote(quote),
        quotes_escaped(base),
        sole_literal(pre + opener(spaced, quote) + post, spaced, quote, pre.len() as int),
    ensures
        qualified(pre + opener(spaced, quote) + post, base) == pre + anchored(spaced, quote, base)
            + post,
{
    let text = pre + opener(spaced, quote) + post;
    let out = pre + anchored(spaced, quote, base) + post;
    let at = pre.len() as int;
    lemma_anchored_stays_sole(pre, post, spaced, quote, base);
    lemma_step_on_sole(pre, post, spaced, quote, base);
    if spaced && quote == '"' {
        lemma_step_skips(out, false, '"', spaced, quote, at, base);
        lemma_step_skips(out, true, '\'', spaced, quote, at, base);
        lemma_step_skips(out, false, '\'', spaced, quote, at, base);
    } else if !spaced && quote == '"' {
        lemma_step_skips(text, true, '"', spaced, quote, at, base);
        lemma_step_skips(out, true, '\'', spaced, quote, at, base);
        lemma_step_skips(out, false, '\'', spaced, quote, at, base);
    } else if spaced {
        lemma_step_skips(text, true, '"', spaced, quote, at, base);
        lemma_step_skips(text, false, '"', spaced, quote, at, base);
        lemma_step_skips(out, false, '\'', spaced, quote, at, base);
    } else {
        lemma_step_skips(text, true, '"', spaced, quote, at, base);
        lemma_step_skips(text, false, '"', spaced, quote, at, base);
        lemma_step_skips(text, true, '\'', spaced, quote, at, base);
    }
}

/// The rewrite is not idempotent: rewriting the result once more inserts
/// the base directory a second time after the same opener.
pub proof fn lemma_rewrite_twice_doubles_base(
    pre: Seq<char>,
    post: Seq<char>,
    spaced: bool,
    quote: char,
    base: Seq<char>,
)
    requires
        is_quote(quote),
        quotes_escaped(base),
        sole_literal(pre + opener(spaced, quote) + post, spaced, quote, pre.len() as int),
    ensures
        qualified(qualified(pre + opener(spaced, quote) + post, base), base) == pre + anchored(
            spaced,
            quote,
            base,
        ) + base + seq!['/'] + post,
{
    let post2 = base + seq!['/'] + post;
    lemma_sole_literal_gains_base(pre, post, spaced, quote, base);
    lemma_anchored_stays_sole(pre, post, spaced, quote, base);
    assert(pre + anchored(spaced, quote, base) + post =~= pre + opener(spaced, quote) + post2);
    lemma_sole_literal_gains_base(pre, post2, spaced, quote, base);
    assert(pre + anchored(spaced, quote, base) + post2 =~= pre + anchored(spaced, quote, base)
        + base + seq!['/'] + post);
}

/// Replacing by a text that starts with the pattern keeps the head of the
/// text and never shortens it.
proof fn lemma_replace_keeps_head(s: Seq<char>, pat: Seq<char>, rep: Seq<char>)
    requires
        pat.len() > 0,
        rep.len() >= pat.len(),
        rep.subrange(0, pat.len() as int) == pat,
    ensures
        replace_all(s, pat, rep).len() >= s.len(),
        forall|j: int|
            0 <= j < s.len() && j < pat.len() ==> #[trigger] replace_all(s, pat, rep)[j] == s[j],
    decreases s.len(),
{
    if s.len() > 0 {
        if occurs_at(s, pat, 0) {
            let t = s.skip(pat.len() as int);
            lemma_replace_keeps_head(t, pat, rep);
            assert forall|j: int| 0 <= j < s.len() && j < pat.len() implies #[trigger] replace_all(
                s,
                pat,
                rep,
            )[j] == s[j] by {
                assert(rep[j] == rep.subrange(0, pat.len() as int)[j]);
                assert(s[j] == s.subrange(0, pat.len() as int)[j]);
            }
        } else {
            let t = s.skip(1);
            lemma_replace_keeps_head(t, pat, rep);
            assert forall|j: int| 0 <= j < s.len() && j < pat.len() implies #[trigger] replace_all(
                s,
                pat,
                rep,
            )[j] == s[j] by {
                if j > 0 {
                    assert(replace_all(s, pat, rep)[j] == replace_all(t, pat, rep)[j - 1]);
                }
            }
        }
    }
}

/// No opener starts inside an inserted escaped base and its slash.
proof fn lemma_no_opener_in_insert(spaced: bool, quote: char, base: Seq<char>, y: Seq<char>)
    requires
        is_quote(quote),
        quotes_escaped(base),
    ensures
        forall|i: int|
            0 <= i < base.len() + 1 ==> !#[trigger] occurs_at(
                base + seq!['/'] + y,
                opener(spaced, quote),
                i,
            ),
{
    let o = opener(spaced, quote);
    let u = base + seq!['/'] + y;
    lemma_opener_shape(spaced, quote);
    assert forall|i: int| 0 <= i < base.len() + 1 implies !#[trigger] occurs_at(u, o, i) by {
        if occurs_at(u, o, i) {
            lemma_occurs_elem(u, o, i);
            let k = i + o.len() - 1;
            if k >= base.len() {
                assert(u[base.len() as int] == '/');
                assert(u[i + (base.len() - i)] == o[base.len() - i]);
            } else {
                assert(u[k] == base[k]);
                assert(u[k] == o[o.len() - 1]);
                assert(u[k - 1] == o[o.len() - 2]);
                assert(u[k - 1] == base[k - 1]);
            }
        }
    }
}

proof fn lemma_double_pass(t: Seq<char>, spaced: bool, quote: char, base: Seq<char>)
    requires
        is_quote(quote),
        quotes_escaped(base),
    ensures
        replace_all(
            replace_all(t, opener(spaced, quote), anchored(spaced, quote, base)),
            opener(spaced, quote),
            anchored(spaced, quote, base),
        ) == replace_all(t, opener(spaced, quote), anchored(spaced, quote, base) + base + seq!['/']),
    decreases t.len(),
{
    let o = opener(spaced, quote);
    let rep = anchored(spaced, quote, base);
    let rep2 = rep + base + seq!['/'];
    let x = base + seq!['/'];
    lemma_opener_shape(spaced, quote);
    assert(rep.subrange(0, o.len() as int) =~= o);
    if t.len() > 0 {
        if occurs_at(t, o, 0) {
            let t1 = t.skip(o.len() as int);
            let r1 = replace_all(t1, o, rep);
            let u = rep + r1;
            assert(replace_all(t, o, rep) == u);
            assert(u.subrange(0, o.len() as int) =~= o);
            assert(u.skip(o.len() as int) =~= x + r1);
            lemma_no_opener_in_insert(spaced, quote, base, r1);
            assert forall|i: int| 0 <= i < x.len() implies !#[trigger] occurs_at(x + r1, o, i) by {
                assert(x + r1 =~= base + seq!['/'] + r1);
            }
            lemma_replace_clean_prefix(x, r1, o, rep);
            lemma_double_pass(t1, spaced, quote, base);
            assert(replace_all(u, o, rep) == rep + replace_all(x + r1, o, rep));
            assert(rep + (x + replace_all(r1, o, rep)) =~= rep2 + replace_all(r1, o, rep));
        } else {
            let t1 = t.skip(1);
            let r1 = replace_all(t1, o, rep);
            let u = seq![t[0]] + r1;
            assert(replace_all(t, o, rep) == u);
            if t.len() >= o.len() {
                lemma_replace_keeps_head(t1, o, rep);
                assert forall|j: int| 0 <= j < o.len() implies #[trigger] u.subrange(
                    0,
                    o.len() as int,
                )[j] == t.subrange(0, o.len() as int)[j] by {
                    if j > 0 {
                        assert(u[j] == r1[j - 1]);
                        assert(r1[j - 1] == t1[j - 1]);
                    }
                }
                assert(u.subrange(0, o.len() as int) =~= t.subrange(0, o.len() as int));
            } else {
                assert forall|i: int| !#[trigger] occurs_at(t1, o, i) by {}
                lemma_replace_absent(t1, o, rep);
                assert(u =~= t);
            }
            assert(!occurs_at(u, o, 0));
            assert(u.skip(1) =~= r1);
            lemma_double_pass(t1, spaced, quote, base);
        }
    }
}

/// However many openers of one spelling a text holds, rewriting that
/// spelling twice inserts the base directory and its slash twice after each
/// of them: the rewrite is not idempotent.
pub proof fn lemma_pass_twice_inserts_base_twice(t: Seq<char>, spaced: bool, quote: char, base: Seq<char>)
    requires
        is_quote(quote),
        quotes_escaped(base),
    ensures
        qualify_step(qualify_step(t, spaced, quote, base), spaced, quote, base) == replace_all(
            t,
            opener(spaced, quote),
            anchored(spaced, quote, base) + base + seq!['/'],
        ),
{
    lemma_double_pass(t, spaced, quote, base);
}

/// No opener of any spelling stands in `t`, except possibly those of the
/// given spelling.
pub open spec fn only_spelling(t: Seq<char>, spaced: bool, quote: char) -> bool {
    forall|sp: bool, q: char, i: int|
        is_quote(q) && #[trigger] occurs_at(t, opener(sp, q), i) ==> sp == spaced && q == quote
}

proof fn lemma_occurs_shift(a: Seq<char>, w: Seq<char>, p: Seq<char>, i: int)
    requires
        occurs_at(a + w, p, i),
        i >= a.len(),
    ensures
        occurs_at(w, p, i - a.len()),
{
    assert((a + w).subrange(i, i + p.len()) =~= w.subrange(i - a.len(), i - a.len() + p.len()));
}

/// Rewriting one spelling creates no opener of another spelling.
proof fn lemma_pass_keeps_others_out(
    t: Seq<char>,
    spaced: bool,
    quote: char,
    sp2: bool,
    q2: char,
    base: Seq<char>,
)
    requires
        is_quote(quote),
        is_quote(q2),
        !(sp2 == spaced && q2 == quote),
        quotes_escaped(base),
        forall|i: int| !#[trigger] occurs_at(t, opener(sp2, q2), i),
    ensures
        forall|i: int|
            !#[trigger] occurs_at(
                replace_all(t, opener(spaced, quote), anchored(spaced, quote, base)),
                opener(sp2, q2),
                i,
            ),
    decreases t.len(),
{
    let o = opener(spaced, quote);
    let o2 = opener(sp2, q2);
    let rep = anchored(spaced, quote, base);
    let x = base + seq!['/'];
    lemma_opener_shape(spaced, quote);
    lemma_opener_shape(sp2, q2);
    assert(rep.subrange(0, o.len() as int) =~= o);
    if t.len() > 0 {
        if occurs_at(t, o, 0) {
            let t1 = t.skip(o.len() as int);
            assert forall|i: int| !#[trigger] occurs_at(t1, o2, i) by {
                if occurs_at(t1, o2, i) {
                    assert(t =~= t.subrange(0, o.len() as int) + t1);
                    assert(occurs_at(t.subrange(0, o.len() as int) + t1, o2, i + o.len())) by {
                        assert((t.subrange(0, o.len() as int) + t1).subrange(
                            i + o.len(),
                            i + o.len() + o2.len(),
                        ) =~= t1.subrange(i, i + o2.len()));
                    }
                }
            }
            lemma_pass_keeps_others_out(t1, spaced, quote, sp2, q2, base);
            let r1 = replace_all(t1, o, rep);
            let u = o + (x + r1);
            assert(replace_all(t, o, rep) =~= u);
            lemma_no_opener_in_insert(sp2, q2, base, r1);
            assert forall|i: int| !#[trigger] occurs_at(u, o2, i) by {
                if occurs_at(u, o2, i) {
                    lemma_occurs_elem(u, o2, i);
                    if i < o.len() {
                        assert(u[i] == o[i]);
                        assert(u[i + 0] == o2[0]);
                        assert(i == 0);
                        assert(u[4] == o[4]);
                        assert(u[4] == o2[4]);
                        if o.len() == o2.len() {
                            assert(u[o.len() - 1] == o[o.len() - 1]);
                            assert(u[o2.len() - 1] == o2[o2.len() - 1]);
                        }
                    } else {
                        lemma_occurs_shift(o, x + r1, o2, i);
                        if i >= o.len() + x.len() {
                            lemma_occurs_shift(x, r1, o2, i - o.len());
                        } else {
                            assert(x + r1 =~= base + seq!['/'] + r1);
                        }
                    }
                }
            }
        } else {
            let t1 = t.skip(1);
            assert forall|i: int| !#[trigger] occurs_at(t1, o2, i) by {
                if occurs_at(t1, o2, i) {
                    assert(t =~= seq![t[0]] + t1);
                    assert((seq![t[0]] + t1).subrange(i + 1, i + 1 + o2.len()) =~= t1.subrange(
                        i,
                        i + o2.len(),
                    ));
                    assert(occurs_at(seq![t[0]] + t1, o2, i + 1));
                }
            }
            lemma_pass_keeps_others_out(t1, spaced, quote, sp2, q2, base);
            let r1 = replace_all(t1, o, rep);
            let u = seq![t[0]] + r1;
            assert(replace_all(t, o, rep) == u);
            assert forall|i: int| !#[trigger] occurs_at(u, o2, i) by {
                if occurs_at(u, o2, i) {
                    if i >= 1 {
                        lemma_occurs_shift(seq![t[0]], r1, o2, i);
                    } else {
                        lemma_occurs_elem(u, o2, 0);
                        assert(u.len() >= o2.len());
                        if t1.len() > 0 && occurs_at(t1, o, 0) {
                            assert(r1 == rep + replace_all(t1.skip(o.len() as int), o, rep));
                            assert(u[1] == r1[0]);
                            assert(r1[0] == rep[0]);
                            assert(rep[0] == rep.subrange(0, o.len() as int)[0]);
                            assert(u[1int] == o2[1]);
                        } else {
                            // the head of the text survives the pass
                            if t1.len() == 0 {
                                assert(r1.len() == 0);
                            } else {
                                let t2 = t1.skip(1);
                                lemma_replace_keeps_head(t2, o, rep);
                                if t2.len() < o.len() {
                                    assert forall|k: int| !#[trigger] occurs_at(t2, o, k) by {}
                                    lemma_replace_absent(t2, o, rep);
                                }
                                assert(r1 == seq![t1[0]] + replace_all(t2, o, rep));
                                assert(t.len() >= o2.len());
                            }
                            assert forall|j: int| 0 <= j < o2.len() implies #[trigger] t[j] == o2[j] by {
                                assert(u[0int + j] == o2[j]);
                                if j >= 1 {
                                    assert(u[j] == r1[j - 1]);
                                    if j >= 2 {
                                        assert(r1[j - 1] == replace_all(t1.skip(1), o, rep)[j - 2]);
                                        assert(t1.skip(1)[j - 2] == t[j]);
                                    }
                                }
                            }
                            assert(t.subrange(0, o2.len() as int) =~= o2);
                            assert(occurs_at(t, o2, 0));
                        }
                    }
                }
            }
        }
    }
}

proof fn lemma_pass_without_match(t: Seq<char>, sp: bool, q: char, base: Seq<char>)
    requires
        forall|i: int| !#[trigger] occurs_at(t, opener(sp, q), i),
    ensures
        qualify_step(t, sp, q, base) == t,
{
    lemma_opener_shape(sp, q);
    lemma_replace_absent(t, opener(sp, q), anchored(sp, q, base));
}

/// On a text whose openers share one spelling, the whole rewrite is the
/// pass of that spelling, and its result keeps to that spelling.
proof fn lemma_rewrite_is_one_pass(t: Seq<char>, spaced: bool, quote: char, base: Seq<char>)
    requires
        is_quote(quote),
        quotes_escaped(base),
        only_spelling(t, spaced, quote),
    ensures
        qualified(t, base) == qualify_step(t, spaced, quote, base),
        only_spelling(qualify_step(t, spaced, quote, base), spaced, quote),
{
    let r = qualify_step(t, spaced, quote, base);
    assert forall|sp: bool, q: char, i: int|
        is_quote(q) && #[trigger] occurs_at(r, opener(sp, q), i) implies sp == spaced && q
        == quote by {
        if !(sp == spaced && q == quote) {
            assert forall|k: int| !#[trigger] occurs_at(t, opener(sp, q), k) by {}
            lemma_pass_keeps_others_out(t, spaced, quote, sp, q, base);
        }
    }
    if !(spaced && quote == '"') {
        lemma_pass_without_match(t, true, '"', base);
    }
    if !(!spaced && quote == '"') {
        lemma_pass_without_match(if spaced && quote == '"' { r } else { t }, false, '"', base);
    }
    if !(spaced && quote == '\'') {
        lemma_pass_without_match(if quote == '"' { r } else { t }, true, '\'', base);
    }
    if !(!spaced && quote == '\'') {
        lemma_pass_without_match(r, false, '\'', base);
    }
}

/// However many path openers a manifest holds, as long as they share one
/// spelling, rewriting the result once more inserts the base directory and
/// its slash a second time after every one of them: the rewrite is not
/// idempotent.
pub proof fn lemma_rewrite_twice_inserts_base_twice(
    t: Seq<char>,
    spaced: bool,
    quote: char,
    base: Seq<char>,
)
    requires
        is_quote(quote),
        quotes_escaped(base),
        only_spelling(t, spaced, quote),
    ensures
        qualified(t, base) == replace_all(t, opener(spaced, quote), anchored(spaced, quote, base)),
        qualified(qualified(t, base), base) == replace_all(
            t,
            opener(spaced, quote),
            anchored(spaced, quote, base) + base + seq!['/'],
        ),
{
    lemma_rewrite_is_one_pass(t, spaced, quote, base);
    lemma_rewrite_is_one_pass(qualify_step(t, spaced, quote, base), spaced, quote, base);
    lemma_double_pass(t, spaced, quote, base);
}

} // verus!
