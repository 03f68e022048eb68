//! Paths: the names between slashes. Leading, trailing and repeated slashes
//! do not count.

use vstd::prelude::*;
use crate::text::{chars_of, string_of};

verus! {

/// How many characters at the head of `s` are not a slash.
pub open spec fn segment_len(s: Seq<char>) -> nat
    decreases s.len(),
{
    if s.len() == 0 || s[0] == '/' {
        0
    } else {
        1 + segment_len(s.skip(1))
    }
}

/// Where the head segment ends.
pub proof fn lemma_segment_len(s: Seq<char>)
    ensures
        segment_len(s) <= s.len(),
        forall|i: int| 0 <= i < segment_len(s) ==> s[i] != '/',
        segment_len(s) < s.len() ==> s[segment_len(s) as int] == '/',
        s.len() > 0 && s[0] != '/' ==> segment_len(s) > 0,
    decreases s.len(),
{
    if s.len() > 0 && s[0] != '/' {
        let t = s.skip(1);
        lemma_segment_len(t);
        assert forall|i: int| 0 <= i < segment_len(s) implies s[i] != '/' by {
            if i > 0 {
                assert(s[i] == t[i - 1]);
            }
        }
        if segment_len(s) < s.len() {
            assert(s[segment_len(s) as int] == t[segment_len(t) as int]);
        }
    }
}

proof fn lemma_segment_len_is(s: Seq<char>, n: nat)
    requires
        n <= s.len(),
        forall|i: int| 0 <= i < n ==> s[i] != '/',
        n < s.len() ==> s[n as int] == '/',
    ensures
        segment_len(s) == n,
{
    lemma_segment_len(s);
    let m = segment_len(s);
    if m < n {
        assert(s[m as int] != '/');
    } else if n < m {
        assert(s[n as int] != '/');
    }
}

/// The names of a path, in order.
pub open spec fn components(s: Seq<char>) -> Seq<Seq<char>>
    decreases s.len(),
{
    if s.len() == 0 {
        Seq::empty()
    } else if s[0] == '/' {
        components(s.skip(1))
    } else {
        let n = segment_len(s);
        proof {
            lemma_segment_len(s);
        }
        seq![s.take(n as int)] + components(s.skip(n as int))
    }
}

/// A slash separates: the names before it and the names behind it are those of
/// the two parts.
pub proof fn law_slash_separates(a: Seq<char>, b: Seq<char>)
    ensures
        components(a + seq!['/'] + b) == components(a) + components(b),
    decreases a.len(),
{
    let s = a + seq!['/'] + b;
    if a.len() == 0 {
        assert(s.skip(1) =~= b);
        assert(components(a) + components(b) =~= components(b));
    } else if a[0] == '/' {
        law_slash_separates(a.skip(1), b);
        assert(s.skip(1) =~= a.skip(1) + seq!['/'] + b);
    } else {
        lemma_segment_len(a);
        let n = segment_len(a);
        assert forall|i: int| 0 <= i < n implies s[i] != '/' by {
            assert(s[i] == a[i]);
        }
        if n < a.len() {
            assert(s[n as int] == a[n as int]);
        }
        lemma_segment_len_is(s, n);
        assert(s.take(n as int) =~= a.take(n as int));
        assert(s.skip(n as int) =~= a.skip(n as int) + seq!['/'] + b);
        law_slash_separates(a.skip(n as int), b);
        assert(seq![a.take(n as int)] + (components(a.skip(n as int)) + components(b)) =~= (
        seq![a.take(n as int)] + components(a.skip(n as int))) + components(b));
    }
}

/// Leading, trailing and repeated slashes make no difference.
pub proof fn law_extra_slashes_do_not_count(a: Seq<char>, b: Seq<char>)
    ensures
        components(seq!['/'] + a) == components(a),
        components(a + seq!['/']) == components(a),
        components(a + seq!['/', '/'] + b) == components(a + seq!['/'] + b),
{
    let none = Seq::<char>::empty();
    law_slash_separates(none, a);
    assert(none + seq!['/'] + a =~= seq!['/'] + a);
    assert(components(none) + components(a) =~= components(a));
    law_slash_separates(a, none);
    assert(a + seq!['/'] + none =~= a + seq!['/']);
    assert(components(a) + components(none) =~= components(a));
    law_slash_separates(a, seq!['/'] + b);
    law_slash_separates(none, b);
    assert(none + seq!['/'] + b =~= seq!['/'] + b);
    assert(components(none) + components(b) =~= components(b));
    assert(a + seq!['/', '/'] + b =~= a + seq!['/'] + (seq!['/'] + b));
    law_slash_separates(a, b);
}

/// A name without a slash is its own only component.
pub proof fn lemma_single_component(s: Seq<char>)
    requires
        s.len() > 0,
        forall|i: int| 0 <= i < s.len() ==> s[i] != '/',
    ensures
        components(s) == seq![s],
{
    lemma_segment_len_is(s, s.len());
    assert(s.take(s.len() as int) =~= s);
    assert(s.skip(s.len() as int) =~= Seq::<char>::empty());
    assert(components(s.skip(s.len() as int)) =~= Seq::<Seq<char>>::empty());
}

/// The texts of a vector of strings.
pub open spec fn texts(v: Seq<String>) -> Seq<Seq<char>> {
    v.map_values(|s: String| s@)
}

/// Splits a path into its names.
pub fn split_path(path: &str) -> (r: Vec<String>)
    ensures
        texts(r@) == components(path@),
{
    let chars = chars_of(path);
    let n: usize = chars.len();
    let mut out: Vec<String> = Vec::new();
    let mut i: usize = 0;
    assert(texts(out@) =~= Seq::<Seq<char>>::empty());
    assert(chars@.skip(0) =~= chars@);
    assert(texts(out@) + components(chars@) =~= components(chars@));
    while i < n
        invariant
            i <= n,
            n == chars@.len(),
            chars@ == path@,
            texts(out@) + components(chars@.skip(i as int)) == components(path@),
        decreases n - i,
    {
        let ghost rest = chars@.skip(i as int);
        if chars[i] == '/' {
            assert(rest.skip(1) =~= chars@.skip(i + 1));
            i = i + 1;
        } else {
            let mut j: usize = i;
            while j < n && chars[j] != '/'
                invariant
                    i <= j <= n,
                    n == chars@.len(),
                    forall|k: int| i <= k < j ==> chars@[k] != '/',
                decreases n - j,
            {
                j = j + 1;
            }
            let name = string_of(&chars, i, j);
            proof {
                let m = (j - i) as nat;
                assert forall|k: int| 0 <= k < m implies rest[k] != '/' by {
                    assert(rest[k] == chars@[i + k]);
                }
                lemma_segment_len_is(rest, m);
                assert(rest.take(m as int) =~= name@);
                assert(rest.skip(m as int) =~= chars@.skip(j as int));
                assert(rest[0] != '/');
                assert(texts(out@.push(name)) =~= texts(out@).push(name@));
                assert(texts(out@) + (seq![name@] + components(chars@.skip(j as int))) =~= texts(
                    out@,
                ).push(name@) + components(chars@.skip(j as int)));
            }
            out.push(name);
            i = j;
        }
    }
    proof {
        assert(chars@.skip(n as int) =~= Seq::<char>::empty());
        assert(texts(out@) + Seq::<Seq<char>>::empty() =~= texts(out@));
    }
    out
}

// ---------------------------------------------------------------------------
// The spelling of paths
// ---------------------------------------------------------------------------

/// Names behind slashes, one slash each.
pub open spec fn spell(names: Seq<Seq<char>>) -> Seq<char>
    decreases names.len(),
{
    if names.len() == 0 {
        Seq::empty()
    } else {
        spell(names.drop_last()) + seq!['/'] + names.last()
    }
}

/// The plain spelling of a path: one slash before each name and none at the
/// end; the root is a single slash.
pub open spec fn canonical_form(names: Seq<Seq<char>>) -> Seq<char> {
    if names.len() == 0 {
        seq!['/']
    } else {
        spell(names)
    }
}

/// A path in its plain spelling.
pub open spec fn canonical(path: Seq<char>) -> bool {
    path == canonical_form(components(path))
}

/// Names come out of a path without slashes, and not empty.
pub proof fn lemma_components_plain(s: Seq<char>)
    ensures
        forall|k: int| 0 <= k < components(s).len() ==> plain(#[trigger] components(s)[k]),
    decreases s.len(),
{
    if s.len() > 0 {
        if s[0] == '/' {
            lemma_components_plain(s.skip(1));
            assert(components(s) == components(s.skip(1)));
        } else {
            lemma_segment_len(s);
            let n = segment_len(s) as int;
            lemma_components_plain(s.skip(n));
            let c = components(s);
            assert(c == seq![s.take(n)] + components(s.skip(n)));
            assert forall|k: int| 0 <= k < c.len() implies plain(#[trigger] c[k]) by {
                if k > 0 {
                    assert(c[k] == components(s.skip(n))[k - 1]);
                } else {
                    assert(c[0] == s.take(n));
                }
            }
        }
    } else {
        assert(components(s).len() == 0);
    }
}

/// A name: not empty, and without a slash.
pub open spec fn plain(name: Seq<char>) -> bool {
    name.len() > 0 && forall|i: int| 0 <= i < name.len() ==> name[i] != '/'
}

pub proof fn lemma_spell_components(names: Seq<Seq<char>>)
    requires
        forall|k: int| 0 <= k < names.len() ==> plain(#[trigger] names[k]),
    ensures
        components(spell(names)) == names,
    decreases names.len(),
{
    if names.len() == 0 {
        assert(names =~= Seq::<Seq<char>>::empty());
    } else {
        let up = names.drop_last();
        lemma_spell_components(up);
        law_slash_separates(spell(up), names.last());
        assert(plain(names[names.len() - 1]));
        lemma_single_component(names.last());
        assert(up + seq![names.last()] =~= names);
    }
}

/// The plain spelling of a path has the names of the path, and two spellings of
/// the same names have one plain spelling.
pub proof fn law_plain_spelling(path: Seq<char>)
    ensures
        components(canonical_form(components(path))) == components(path),
        canonical(canonical_form(components(path))),
{
    let names = components(path);
    lemma_components_plain(path);
    lemma_spell_components(names);
    if names.len() == 0 {
        let none = Seq::<char>::empty();
        law_slash_separates(none, none);
        assert(none + seq!['/'] + none =~= seq!['/']);
        assert(components(none) =~= Seq::<Seq<char>>::empty());
        assert(names =~= Seq::<Seq<char>>::empty());
    }
}

/// Spells the first `count` names plainly.
pub fn spell_path(names: &Vec<String>, count: usize) -> (r: String)
    requires
        count <= names@.len(),
    ensures
        r@ == canonical_form(texts(names@).take(count as int)),
{
    if count == 0 {
        proof {
            reveal_strlit("/");
            assert("/"@ =~= seq!['/']);
        }
        return "/".to_owned();
    }
    let mut s = String::new();
    let ghost all = texts(names@);
    let mut i: usize = 0;
    assert(all.take(0) =~= Seq::<Seq<char>>::empty());
    assert(s@ =~= spell(all.take(0)));
    while i < count
        invariant
            i <= count <= names@.len(),
            all == texts(names@),
            s@ == spell(all.take(i as int)),
        decreases count - i,
    {
        proof {
            assert(all.take(i + 1).drop_last() =~= all.take(i as int));
            assert(all.take(i + 1).last() == names@[i as int]@);
        }
        let ghost before = s@;
        s.push('/');
        s.append(names[i].as_str());
        assert(s@ =~= before + seq!['/'] + names@[i as int]@);
        i = i + 1;
    }
    s
}

/// The plain spelling of a path.
pub fn plain_path(path: &str) -> (r: String)
    ensures
        r@ == canonical_form(components(path@)),
{
    let names = split_path(path);
    assert(texts(names@).take(names@.len() as int) =~= texts(names@));
    spell_path(&names, names.len())
}

} // verus!
