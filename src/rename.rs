//! Renaming of the module and file tokens in stack labels, so that profiles of
//! two differently named programs share their frame names.
use crate::folded::copy_bytes;
use vstd::prelude::*;

verus! {

pub open spec fn starts_with(s: Seq<u8>, f: Seq<u8>) -> bool {
    f.len() <= s.len() && s.take(f.len() as int) == f
}

/// `s` with every occurrence of `f` replaced by `t`, scanning from the left;
/// an empty `f` matches nowhere.
pub open spec fn replace(s: Seq<u8>, f: Seq<u8>, t: Seq<u8>) -> Seq<u8>
    decreases s.len(),
{
    if s.len() == 0 {
        s
    } else if f.len() > 0 && starts_with(s, f) {
        t + replace(s.skip(f.len() as int), f, t)
    } else {
        seq![s[0]] + replace(s.skip(1), f, t)
    }
}

/// Whether `f` occurs nowhere in `s`.
pub open spec fn free_of(s: Seq<u8>, f: Seq<u8>) -> bool
    decreases s.len(),
{
    s.len() == 0 || (!starts_with(s, f) && free_of(s.skip(1), f))
}

/// Whether `a` and `b` agree on their common length.
pub open spec fn agree(a: Seq<u8>, b: Seq<u8>) -> bool {
    forall|j: int| 0 <= j < a.len() && 0 <= j < b.len() ==> a[j] == b[j]
}

/// Whether a replacement `t` can take part in no occurrence of `g`: no
/// occurrence of `g` starts inside `t`, and none that starts before `t` can
/// reach it.
pub open spec fn no_rematch(t: Seq<u8>, g: Seq<u8>) -> bool {
    &&& t.len() > 0
    &&& forall|i: int| 0 <= i < t.len() ==> !agree(#[trigger] t.skip(i), g)
    &&& forall|j: int| 0 < j < g.len() ==> #[trigger] g[j] != t[0]
}

pub const COLON: u8 = 58;

pub const DOT: u8 = 46;

/// The module token of a program name: `name::`.
pub open spec fn module_token(name: Seq<u8>) -> Seq<u8> {
    name + seq![COLON, COLON]
}

/// The source-file token of a program name: `name.rs`.
pub open spec fn file_token(name: Seq<u8>) -> Seq<u8> {
    name + seq![DOT, 114u8, 115u8]
}

/// Profile text with the module and file tokens of `from` renamed to those of `to`.
pub open spec fn normalize(s: Seq<u8>, from: Seq<u8>, to: Seq<u8>) -> Seq<u8> {
    replace(replace(s, module_token(from), module_token(to)), file_token(from), file_token(to))
}

/// Whether renaming `from` to `to` leaves nothing for a second renaming to do.
pub open spec fn renaming_stable(from: Seq<u8>, to: Seq<u8>) -> bool {
    &&& no_rematch(module_token(to), module_token(from))
    &&& no_rematch(file_token(to), file_token(from))
    &&& no_rematch(file_token(to), module_token(from))
}

/// Whether `f` occurs in `s` at `i`.
fn occurs_at(s: &[u8], i: usize, f: &[u8]) -> (r: bool)
    requires
        i <= s@.len(),
    ensures
        r == starts_with(s@.skip(i as int), f@),
{
    if f.len() > s.len() - i {
        return false;
    }
    let n = s.len();
    let mut j: usize = 0;
    while j < f.len()
        invariant
            n == s@.len(),
            i + f@.len() <= s@.len(),
            j <= f@.len(),
            forall|k: int| 0 <= k < j ==> s@[i + k] == f@[k],
        decreases f@.len() - j,
    {
        if s[i + j] != f[j] {
            assert(s@.skip(i as int).take(f@.len() as int)[j as int] != f@[j as int]);
            return false;
        }
        j = j + 1;
    }
    assert(s@.skip(i as int).take(f@.len() as int) =~= f@);
    true
}

/// Replaces every occurrence of `from` in `s` by `to`, scanning from the left.
pub fn replace_all(s: &[u8], from: &[u8], to: &[u8]) -> (r: Vec<u8>)
    ensures
        r@ == replace(s@, from@, to@),
{
    let mut out: Vec<u8> = Vec::new();
    let mut i: usize = 0;
    assert(s@.skip(0) =~= s@);
    while i < s.len()
        invariant
            i <= s@.len(),
            replace(s@, from@, to@) == out@ + replace(s@.skip(i as int), from@, to@),
        decreases s@.len() - i,
    {
        let ghost rest = s@.skip(i as int);
        if from.len() > 0 && occurs_at(s, i, from) {
            let ghost mid = out@;
            let mut j: usize = 0;
            while j < to.len()
                invariant
                    j <= to@.len(),
                    out@ == mid + to@.take(j as int),
                decreases to@.len() - j,
            {
                out.push(to[j]);
                j = j + 1;
                assert(out@ =~= mid + to@.take(j as int));
            }
            assert(to@.take(j as int) =~= to@);
            assert(rest.skip(from@.len() as int) =~= s@.skip(i + from@.len()));
            assert(replace(s@, from@, to@) =~= out@ + replace(
                s@.skip(i + from@.len()),
                from@,
                to@,
            ));
            i = i + from.len();
        } else {
            out.push(s[i]);
            assert(rest.skip(1) =~= s@.skip(i + 1));
            assert(rest[0] == s@[i as int]);
            assert(replace(s@, from@, to@) =~= out@ + replace(s@.skip(i + 1), from@, to@));
            i = i + 1;
        }
    }
    assert(s@.skip(i as int) =~= Seq::<u8>::empty());
    assert(out@ + Seq::<u8>::empty() =~= out@);
    out
}

/// Renames the module token `from::` to `to::` and the source-file token
/// `from.rs` to `to.rs` throughout a profile text, in that order.
pub fn normalize_labels(text: &[u8], from: &[u8], to: &[u8]) -> (r: Vec<u8>)
    ensures
        r@ == normalize(text@, from@, to@),
{
    let mut from_module = copy_bytes(from);
    from_module.push(COLON);
    from_module.push(COLON);
    let mut to_module = copy_bytes(to);
    to_module.push(COLON);
    to_module.push(COLON);
    let mut from_file = copy_bytes(from);
    from_file.push(DOT);
    from_file.push(114);
    from_file.push(115);
    let mut to_file = copy_bytes(to);
    to_file.push(DOT);
    to_file.push(114);
    to_file.push(115);
    assert(from_module@ =~= module_token(from@));
    assert(to_module@ =~= module_token(to@));
    assert(from_file@ =~= file_token(from@));
    assert(to_file@ =~= file_token(to@));
    let once = replace_all(text, from_module.as_slice(), to_module.as_slice());
    replace_all(once.as_slice(), from_file.as_slice(), to_file.as_slice())
}

proof fn lemma_replace_free(x: Seq<u8>, f: Seq<u8>, t: Seq<u8>)
    requires
        f.len() > 0,
        free_of(x, f),
    ensures
        replace(x, f, t) == x,
    decreases x.len(),
{
    if x.len() > 0 {
        lemma_replace_free(x.skip(1), f, t);
        assert(seq![x[0]] + x.skip(1) =~= x);
    }
}

proof fn lemma_free_skip(x: Seq<u8>, g: Seq<u8>, k: int)
    requires
        free_of(x, g),
        0 <= k <= x.len(),
    ensures
        free_of(x.skip(k), g),
    decreases k,
{
    if k > 0 {
        lemma_free_skip(x.skip(1), g, k - 1);
        assert(x.skip(1).skip(k - 1) =~= x.skip(k));
    } else {
        assert(x.skip(0) =~= x);
    }
}

proof fn lemma_free_prefix(u: Seq<u8>, y: Seq<u8>, g: Seq<u8>)
    requires
        g.len() > 0,
        forall|i: int| 0 <= i < u.len() ==> !agree(#[trigger] u.skip(i), g),
        free_of(y, g),
    ensures
        free_of(u + y, g),
    decreases u.len(),
{
    if u.len() == 0 {
        assert(u + y =~= y);
    } else {
        let s = u + y;
        if starts_with(s, g) {
            assert(agree(u.skip(0), g)) by {
                assert forall|j: int| 0 <= j < u.skip(0).len() && 0 <= j < g.len() implies u.skip(
                    0,
                )[j] == g[j] by {
                    assert(s.take(g.len() as int)[j] == g[j]);
                }
            }
        }
        let v = u.skip(1);
        assert forall|i: int| 0 <= i < v.len() implies !agree(#[trigger] v.skip(i), g) by {
            assert(v.skip(i) =~= u.skip(i + 1));
        }
        lemma_free_prefix(v, y, g);
        assert(s.skip(1) =~= v + y);
    }
}

proof fn lemma_starts_back(s: Seq<u8>, f: Seq<u8>, t: Seq<u8>, w: Seq<u8>)
    requires
        f.len() > 0,
        t.len() > 0,
        forall|j: int| 0 <= j < w.len() ==> #[trigger] w[j] != t[0],
        starts_with(replace(s, f, t), w),
    ensures
        starts_with(s, w),
    decreases s.len(),
{
    let r = replace(s, f, t);
    if w.len() == 0 {
        assert(s.take(0) =~= w);
    } else if s.len() == 0 {
    } else if starts_with(s, f) {
        assert(r[0] == t[0]);
        assert(r.take(w.len() as int)[0] == w[0]);
    } else {
        let rest = replace(s.skip(1), f, t);
        assert(r == seq![s[0]] + rest);
        let w1 = w.skip(1);
        assert(rest.take(w1.len() as int) =~= w1) by {
            assert forall|j: int| 0 <= j < w1.len() implies rest.take(w1.len() as int)[j] == w1[j] by {
                assert(r.take(w.len() as int)[j + 1] == w[j + 1]);
            }
        }
        lemma_starts_back(s.skip(1), f, t, w1);
        assert(s.take(w.len() as int) =~= w) by {
            assert(r.take(w.len() as int)[0] == w[0]);
            assert forall|j: int| 0 < j < w.len() implies s.take(w.len() as int)[j] == w[j] by {
                assert(s.skip(1).take(w1.len() as int)[j - 1] == w1[j - 1]);
            }
        }
    }
}

proof fn lemma_free_after(x: Seq<u8>, f: Seq<u8>, t: Seq<u8>, g: Seq<u8>)
    requires
        f.len() > 0,
        g.len() > 0,
        no_rematch(t, g),
        free_of(x, g) || g == f,
    ensures
        free_of(replace(x, f, t), g),
    decreases x.len(),
{
    if x.len() == 0 {
    } else if starts_with(x, f) {
        let x1 = x.skip(f.len() as int);
        if free_of(x, g) {
            lemma_free_skip(x, g, f.len() as int);
        }
        lemma_free_after(x1, f, t, g);
        lemma_free_prefix(t, replace(x1, f, t), g);
    } else {
        let x1 = x.skip(1);
        let rest = replace(x1, f, t);
        let r = seq![x[0]] + rest;
        lemma_free_after(x1, f, t, g);
        assert(r.skip(1) =~= rest);
        if starts_with(r, g) {
            let w = g.skip(1);
            assert(rest.take(w.len() as int) =~= w) by {
                assert forall|j: int| 0 <= j < w.len() implies rest.take(w.len() as int)[j] == w[j] by {
                    assert(r.take(g.len() as int)[j + 1] == g[j + 1]);
                }
            }
            assert forall|j: int| 0 <= j < w.len() implies #[trigger] w[j] != t[0] by {
                assert(w[j] == g[j + 1]);
            }
            lemma_starts_back(x1, f, t, w);
            assert(x.take(g.len() as int) =~= g) by {
                assert(r.take(g.len() as int)[0] == g[0]);
                assert forall|j: int| 0 < j < g.len() implies x.take(g.len() as int)[j] == g[j] by {
                    assert(x1.take(w.len() as int)[j - 1] == w[j - 1]);
                }
            }
        }
    }
}

/// After renaming, neither old token occurs anywhere in the text, provided the
/// new tokens cannot take part in an occurrence of the old ones.
pub proof fn lemma_normalize_removes_tokens(s: Seq<u8>, from: Seq<u8>, to: Seq<u8>)
    requires
        renaming_stable(from, to),
    ensures
        free_of(normalize(s, from, to), module_token(from)),
        free_of(normalize(s, from, to), file_token(from)),
{
    let f1 = module_token(from);
    let t1 = module_token(to);
    let f2 = file_token(from);
    let t2 = file_token(to);
    let a = replace(s, f1, t1);
    lemma_free_after(s, f1, t1, f1);
    lemma_free_after(a, f2, t2, f1);
    lemma_free_after(a, f2, t2, f2);
}

/// Renaming a second time changes nothing, provided the new tokens cannot take
/// part in an occurrence of the old ones.
pub proof fn lemma_normalize_idempotent(s: Seq<u8>, from: Seq<u8>, to: Seq<u8>)
    requires
        renaming_stable(from, to),
    ensures
        normalize(normalize(s, from, to), from, to) == normalize(s, from, to),
{
    let f1 = module_token(from);
    let t1 = module_token(to);
    let f2 = file_token(from);
    let t2 = file_token(to);
    let b = normalize(s, from, to);
    lemma_normalize_removes_tokens(s, from, to);
    lemma_replace_free(b, f1, t1);
    lemma_replace_free(b, f2, t2);
}

} // verus!
