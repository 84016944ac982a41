//! Averaging of repeated profiles of one single-threaded program.
use crate::folded::{
    copy_bytes, frames_view, frames_well_formed, lemma_parsed_well_formed, lemma_round_trip,
    parse_profile, profile_result, render, render_profile, Frame, FrameView, ProfileError,
};
use vstd::prelude::*;

verus! {

/// Why a set of profiles has no average.
#[derive(Clone, Copy, Debug, PartialEq, Eq, Structural)]
pub enum AverageError {
    /// No profile was given.
    NoProfiles,
    /// The profile at this index (from 0) differs from the first one in its
    /// number of lines or in a label.
    ShapeMismatch { profile: usize },
    /// A sum of counts does not fit in a `u128`.
    CountOverflow,
}

/// The profiles as plain values.
pub open spec fn profiles_view(ps: Seq<Vec<Frame>>) -> Seq<Seq<FrameView>> {
    ps.map_values(|p: Vec<Frame>| frames_view(p@))
}

/// Whether `p` has the lines of `first`: as many, with the same labels in the same order.
pub open spec fn same_shape(first: Seq<FrameView>, p: Seq<FrameView>) -> bool {
    &&& p.len() == first.len()
    &&& forall|i: int| 0 <= i < p.len() ==> #[trigger] p[i].0 == first[i].0
}

pub open spec fn all_same_shape(ps: Seq<Seq<FrameView>>) -> bool {
    forall|k: int| 0 <= k < ps.len() ==> same_shape(ps[0], #[trigger] ps[k])
}

/// The sum of the counts at position `i` over the first `k` profiles.
pub open spec fn column_sum(ps: Seq<Seq<FrameView>>, i: int, k: int) -> nat
    decreases k,
{
    if k <= 0 {
        0
    } else {
        column_sum(ps, i, k - 1) + ps[k - 1][i].1 as nat
    }
}

pub open spec fn sums_fit(ps: Seq<Seq<FrameView>>) -> bool {
    forall|i: int| 0 <= i < ps[0].len() ==> #[trigger] column_sum(ps, i, ps.len() as int) <= u128::MAX
}

/// The average of same-shaped profiles: the first one's labels, each with the
/// truncated mean of the counts at its position.
pub open spec fn averaged(ps: Seq<Seq<FrameView>>) -> Seq<FrameView> {
    Seq::new(
        ps[0].len(),
        |i: int| (ps[0][i].0, (column_sum(ps, i, ps.len() as int) / ps.len()) as u128),
    )
}

/// What averaging `ps` gives: the average, or exactly one of the errors.
pub open spec fn average_outcome(
    ps: Seq<Seq<FrameView>>,
    r: Result<Seq<FrameView>, AverageError>,
) -> bool {
    match r {
        Ok(avg) => ps.len() > 0 && all_same_shape(ps) && sums_fit(ps) && avg == averaged(ps),
        Err(AverageError::NoProfiles) => ps.len() == 0,
        Err(AverageError::ShapeMismatch { profile }) => {
            &&& ps.len() > 0
            &&& profile < ps.len()
            &&& !same_shape(ps[0], ps[profile as int])
            &&& forall|k: int| 0 <= k < profile ==> same_shape(ps[0], #[trigger] ps[k])
        },
        Err(AverageError::CountOverflow) => ps.len() > 0 && all_same_shape(ps) && !sums_fit(ps),
    }
}

/// Whether two runs of bytes are equal.
pub fn bytes_equal(a: &[u8], b: &[u8]) -> (r: bool)
    ensures
        r == (a@ == b@),
{
    if a.len() != b.len() {
        return false;
    }
    let mut i: usize = 0;
    while i < a.len()
        invariant
            i <= a@.len(),
            a@.len() == b@.len(),
            forall|j: int| 0 <= j < i ==> a@[j] == b@[j],
        decreases a@.len() - i,
    {
        if a[i] != b[i] {
            return false;
        }
        i = i + 1;
    }
    assert(a@ =~= b@);
    true
}

proof fn lemma_column_sum_mono(ps: Seq<Seq<FrameView>>, i: int, k: int, m: int)
    requires
        0 <= k <= m,
    ensures
        column_sum(ps, i, k) <= column_sum(ps, i, m),
    decreases m - k,
{
    if k < m {
        lemma_column_sum_mono(ps, i, k, m - 1);
    }
}

/// Whether `p` has the lines of `first`.
fn has_same_shape(first: &Vec<Frame>, p: &Vec<Frame>) -> (r: bool)
    ensures
        r == same_shape(frames_view(first@), frames_view(p@)),
{
    if p.len() != first.len() {
        return false;
    }
    let mut i: usize = 0;
    while i < p.len()
        invariant
            i <= p@.len(),
            p@.len() == first@.len(),
            forall|j: int| 0 <= j < i ==> #[trigger] p@[j].label@ == first@[j].label@,
        decreases p@.len() - i,
    {
        if !bytes_equal(p[i].label.as_slice(), first[i].label.as_slice()) {
            assert(frames_view(p@)[i as int].0 != frames_view(first@)[i as int].0);
            return false;
        }
        i = i + 1;
    }
    assert forall|j: int| 0 <= j < p@.len() implies #[trigger] frames_view(p@)[j].0 == frames_view(
        first@,
    )[j].0 by {
        assert(p@[j].label@ == first@[j].label@);
    }
    true
}

/// Averages repeated profiles of one program, position by position: the
/// result has the first profile's labels in its order, and at each position
/// the sum of the counts there divided by the number of profiles, truncated.
pub fn average_profiles(profiles: &Vec<Vec<Frame>>) -> (r: Result<Vec<Frame>, AverageError>)
    ensures
        average_outcome(
            profiles_view(profiles@),
            match r {
                Ok(v) => Ok(frames_view(v@)),
                Err(e) => Err(e),
            },
        ),
{
    let ghost ps = profiles_view(profiles@);
    let n = profiles.len();
    if n == 0 {
        return Err(AverageError::NoProfiles);
    }
    let first = &profiles[0];
    assert(ps[0] == frames_view(first@));
    let mut k: usize = 0;
    while k < n
        invariant
            n == profiles@.len(),
            ps == profiles_view(profiles@),
            ps[0] == frames_view(first@),
            k <= n,
            forall|j: int| 0 <= j < k ==> same_shape(ps[0], #[trigger] ps[j]),
        decreases n - k,
    {
        assert(ps[k as int] == frames_view(profiles@[k as int]@));
        if !has_same_shape(first, &profiles[k]) {
            return Err(AverageError::ShapeMismatch { profile: k });
        }
        k = k + 1;
    }
    let len = first.len();
    let mut avg: Vec<Frame> = Vec::new();
    let mut i: usize = 0;
    while i < len
        invariant
            n == profiles@.len(),
            n > 0,
            ps == profiles_view(profiles@),
            ps[0] == frames_view(first@),
            len == first@.len(),
            all_same_shape(ps),
            i <= len,
            forall|j: int| 0 <= j < i ==> #[trigger] column_sum(ps, j, n as int) <= u128::MAX,
            frames_view(avg@) == averaged(ps).take(i as int),
        decreases len - i,
    {
        let mut sum: u128 = 0;
        let mut k: usize = 0;
        while k < n
            invariant
                n == profiles@.len(),
                ps == profiles_view(profiles@),
                all_same_shape(ps),
                i < ps[0].len(),
                k <= n,
                sum as nat == column_sum(ps, i as int, k as int),
            decreases n - k,
        {
            assert(same_shape(ps[0], ps[k as int]));
            assert(ps[k as int] == frames_view(profiles@[k as int]@));
            let c = profiles[k][i].count;
            assert(c == ps[k as int][i as int].1);
            if sum > u128::MAX - c {
                proof {
                    lemma_column_sum_mono(ps, i as int, k + 1, n as int);
                }
                return Err(AverageError::CountOverflow);
            }
            sum = sum + c;
            k = k + 1;
        }
        let label = copy_bytes(first[i].label.as_slice());
        let ghost before = avg@;
        avg.push(Frame { label, count: sum / (n as u128) });
        assert(frames_view(avg@) =~= frames_view(before).push(averaged(ps)[i as int]));
        assert(averaged(ps).take(i + 1) =~= averaged(ps).take(i as int).push(averaged(ps)[i as int]));
        i = i + 1;
    }
    assert(averaged(ps).take(i as int) =~= averaged(ps));
    Ok(avg)
}

/// Why a set of profile texts has no average.
#[derive(Clone, Copy, Debug, PartialEq, Eq, Structural)]
pub enum AverageTextError {
    /// The text at this index (from 0) is not a profile.
    Parse { profile: usize, error: ProfileError },
    /// The parsed profiles have no average.
    Average(AverageError),
}

pub open spec fn texts_view(ts: Seq<Vec<u8>>) -> Seq<Seq<u8>> {
    ts.map_values(|t: Vec<u8>| t@)
}

pub open spec fn all_parse(ts: Seq<Seq<u8>>) -> bool {
    forall|k: int| 0 <= k < ts.len() ==> #[trigger] profile_result(ts[k]) is Ok
}

/// The frames of each text, where every text parses.
pub open spec fn parsed(ts: Seq<Seq<u8>>) -> Seq<Seq<FrameView>> {
    ts.map_values(|t: Seq<u8>| profile_result(t)->Ok_0)
}

/// Whether every text parses and the parsed profiles have an average.
pub open spec fn averages(ts: Seq<Seq<u8>>) -> bool {
    all_parse(ts) && average_outcome(parsed(ts), Ok(averaged(parsed(ts))))
}

/// The text of the average of the profiles that `ts` hold.
pub open spec fn average_text(ts: Seq<Seq<u8>>) -> Seq<u8> {
    render(averaged(parsed(ts)))
}

/// What averaging profile texts gives: the text of the average, the first text
/// that does not parse, or why the parsed profiles have no average.
pub open spec fn average_text_outcome(
    ts: Seq<Seq<u8>>,
    r: Result<Seq<u8>, AverageTextError>,
) -> bool {
    match r {
        Err(AverageTextError::Parse { profile, error }) => {
            &&& profile < ts.len()
            &&& profile_result(ts[profile as int]) == Err::<Seq<FrameView>, ProfileError>(error)
            &&& forall|k: int| 0 <= k < profile ==> #[trigger] profile_result(ts[k]) is Ok
        },
        Err(AverageTextError::Average(e)) => all_parse(ts) && average_outcome(parsed(ts), Err(e)),
        Ok(out) => averages(ts) && out == average_text(ts),
    }
}

/// Parses each profile text, averages the profiles and writes the average as
/// profile text.
pub fn average_profile_texts(texts: &Vec<Vec<u8>>) -> (r: Result<Vec<u8>, AverageTextError>)
    ensures
        average_text_outcome(
            texts_view(texts@),
            match r {
                Ok(out) => Ok(out@),
                Err(e) => Err(e),
            },
        ),
{
    let ghost ts = texts_view(texts@);
    let mut profiles: Vec<Vec<Frame>> = Vec::new();
    let mut k: usize = 0;
    while k < texts.len()
        invariant
            ts == texts_view(texts@),
            k <= texts@.len(),
            profiles@.len() == k,
            forall|j: int| 0 <= j < k ==> #[trigger] profile_result(ts[j]) is Ok,
            forall|j: int|
                0 <= j < k ==> Ok::<Seq<FrameView>, ProfileError>(
                    #[trigger] profiles_view(profiles@)[j],
                ) == profile_result(ts[j]),
        decreases texts@.len() - k,
    {
        assert(ts[k as int] == texts@[k as int]@);
        match parse_profile(texts[k].as_slice()) {
            Err(error) => {
                return Err(AverageTextError::Parse { profile: k, error });
            },
            Ok(frames) => {
                let ghost before = profiles@;
                profiles.push(frames);
                assert forall|j: int| 0 <= j < k + 1 implies Ok::<Seq<FrameView>, ProfileError>(
                    #[trigger] profiles_view(profiles@)[j],
                ) == profile_result(ts[j]) by {
                    if j < k {
                        assert(profiles@[j] == before[j]);
                        assert(profiles_view(before)[j] == profiles_view(profiles@)[j]);
                    } else {
                        assert(profiles_view(profiles@)[j] == frames_view(profiles@[j]@));
                    }
                }
            },
        }
        k = k + 1;
    }
    assert(profiles_view(profiles@) =~= parsed(ts)) by {
        assert forall|j: int| 0 <= j < ts.len() implies #[trigger] profiles_view(profiles@)[j]
            == parsed(ts)[j] by {
            assert(Ok::<Seq<FrameView>, ProfileError>(profiles_view(profiles@)[j]) == profile_result(
                ts[j],
            ));
        }
    }
    match average_profiles(&profiles) {
        Err(e) => Err(AverageTextError::Average(e)),
        Ok(avg) => Ok(render_profile(&avg)),
    }
}

/// Parsing the text of an average of parsed profiles gives that average back,
/// frame for frame and in the same order.
pub proof fn lemma_average_round_trip(ts: Seq<Seq<u8>>)
    requires
        ts.len() > 0,
        all_parse(ts),
        all_same_shape(parsed(ts)),
    ensures
        profile_result(render(averaged(parsed(ts)))) == Ok::<Seq<FrameView>, ProfileError>(
            averaged(parsed(ts)),
        ),
{
    let ps = parsed(ts);
    lemma_parsed_well_formed(ts[0]);
    assert(profile_result(ts[0]) is Ok);
    let avg = averaged(ps);
    assert(frames_well_formed(avg)) by {
        assert forall|i: int| 0 <= i < avg.len() implies #[trigger] avg[i].0 == ps[0][i].0 by {}
    }
    lemma_round_trip(avg);
}

proof fn lemma_column_sum_copies(ps: Seq<Seq<FrameView>>, fs: Seq<FrameView>, i: int, k: int)
    requires
        0 <= k <= ps.len(),
        0 <= i < fs.len(),
        forall|m: int| 0 <= m < ps.len() ==> #[trigger] ps[m] == fs,
    ensures
        column_sum(ps, i, k) == k * (fs[i].1 as nat),
    decreases k,
{
    if k > 0 {
        lemma_column_sum_copies(ps, fs, i, k - 1);
        assert(ps[k - 1] == fs);
        let c = fs[i].1 as nat;
        assert(column_sum(ps, i, k) == column_sum(ps, i, k - 1) + c);
        assert((k - 1) * c + c == k * c) by (nonlinear_arith);
    } else {
        assert(column_sum(ps, i, k) == 0);
        assert(0 * (fs[i].1 as nat) == 0);
    }
}

/// Averaging one or more copies of the same profile text gives that
/// profile's frames back; with `lemma_average_round_trip`, averaging copies of
/// the text of an average gives the average again.
pub proof fn lemma_average_copies(t: Seq<u8>, j: nat)
    requires
        j >= 1,
        profile_result(t) is Ok,
    ensures
        all_parse(Seq::new(j, |k: int| t)),
        all_same_shape(parsed(Seq::new(j, |k: int| t))),
        averaged(parsed(Seq::new(j, |k: int| t))) == profile_result(t)->Ok_0,
{
    let ts = Seq::new(j, |k: int| t);
    let ps = parsed(ts);
    let fs = profile_result(t)->Ok_0;
    assert forall|m: int| 0 <= m < ps.len() implies #[trigger] ps[m] == fs by {
        assert(ts[m] == t);
    }
    let avg = averaged(ps);
    assert forall|i: int| 0 <= i < avg.len() implies #[trigger] avg[i] == fs[i] by {
        lemma_column_sum_copies(ps, fs, i, j as int);
        let c = fs[i].1 as nat;
        assert((j * c) / j == c) by (nonlinear_arith)
            requires
                j >= 1,
        ;
    }
    assert(avg =~= fs);
}

proof fn lemma_column_sum_prefix(ps: Seq<Seq<FrameView>>, qs: Seq<Seq<FrameView>>, i: int, k: int)
    requires
        0 <= k <= ps.len(),
        k <= qs.len(),
        forall|m: int| 0 <= m < k ==> #[trigger] ps[m] == qs[m],
    ensures
        column_sum(ps, i, k) == column_sum(qs, i, k),
    decreases k,
{
    if k > 0 {
        lemma_column_sum_prefix(ps, qs, i, k - 1);
    }
}

proof fn lemma_column_sum_remove(ps: Seq<Seq<FrameView>>, i: int, idx: int)
    requires
        0 <= idx < ps.len(),
    ensures
        column_sum(ps, i, ps.len() as int) == column_sum(ps.remove(idx), i, ps.len() - 1)
            + ps[idx][i].1 as nat,
    decreases ps.len(),
{
    let n = ps.len() as int;
    if idx == n - 1 {
        lemma_column_sum_prefix(ps, ps.remove(idx), i, n - 1);
    } else {
        let d = ps.drop_last();
        lemma_column_sum_remove(d, i, idx);
        assert(ps.remove(idx).drop_last() =~= d.remove(idx));
        lemma_column_sum_prefix(ps, d, i, n - 1);
        lemma_column_sum_prefix(ps.remove(idx), d.remove(idx), i, n - 2);
        assert(ps.remove(idx)[n - 2] == ps[n - 1]);
    }
}

proof fn lemma_column_sum_reorder(ps: Seq<Seq<FrameView>>, qs: Seq<Seq<FrameView>>, i: int)
    requires
        ps.to_multiset() == qs.to_multiset(),
    ensures
        column_sum(ps, i, ps.len() as int) == column_sum(qs, i, qs.len() as int),
    decreases ps.len(),
{
    broadcast use vstd::seq_lib::to_multiset_remove, vstd::seq_lib::to_multiset_contains, vstd::seq_lib::to_multiset_len;

    if ps.len() == 0 {
        assert(qs.to_multiset().len() == 0);
    } else {
        let n = ps.len() as int;
        let x = ps[n - 1];
        assert(ps.contains(x));
        assert(ps.to_multiset().count(x) > 0);
        assert(qs.contains(x));
        let idx = choose|idx: int| 0 <= idx < qs.len() && qs[idx] == x;
        assert(ps.remove(n - 1).to_multiset() == qs.remove(idx).to_multiset());
        lemma_column_sum_reorder(ps.remove(n - 1), qs.remove(idx), i);
        lemma_column_sum_remove(ps, i, n - 1);
        lemma_column_sum_remove(qs, i, idx);
    }
}

/// The average does not depend on the order of the runs: averaging the same
/// same-shaped profiles in another order gives the same average.
pub proof fn lemma_average_order_independent(ps: Seq<Seq<FrameView>>, qs: Seq<Seq<FrameView>>)
    requires
        ps.len() > 0,
        all_same_shape(ps),
        qs.to_multiset() == ps.to_multiset(),
    ensures
        qs.len() == ps.len(),
        all_same_shape(qs),
        sums_fit(qs) == sums_fit(ps),
        averaged(qs) == averaged(ps),
{
    broadcast use vstd::seq_lib::to_multiset_contains, vstd::seq_lib::to_multiset_len;

    vstd::seq_lib::to_multiset_len(ps);
    vstd::seq_lib::to_multiset_len(qs);
    assert forall|m: int| 0 <= m < qs.len() implies same_shape(ps[0], #[trigger] qs[m]) by {
        assert(qs.contains(qs[m]));
        assert(qs.to_multiset().count(qs[m]) > 0);
        assert(ps.contains(qs[m]));
        let k = choose|k: int| 0 <= k < ps.len() && ps[k] == qs[m];
        assert(same_shape(ps[0], ps[k]));
    }
    assert(same_shape(ps[0], qs[0]));
    assert forall|m: int| 0 <= m < qs.len() implies same_shape(qs[0], #[trigger] qs[m]) by {
        assert(same_shape(ps[0], qs[m]));
    }
    assert forall|i: int| 0 <= i < ps[0].len() implies #[trigger] column_sum(qs, i, qs.len() as int)
        == column_sum(ps, i, ps.len() as int) by {
        lemma_column_sum_reorder(ps, qs, i);
    }
    assert(qs[0].len() == ps[0].len());
    assert(sums_fit(qs) == sums_fit(ps)) by {
        if sums_fit(ps) {
            assert forall|i: int| 0 <= i < qs[0].len() implies #[trigger] column_sum(
                qs,
                i,
                qs.len() as int,
            ) <= u128::MAX by {
                assert(column_sum(ps, i, ps.len() as int) <= u128::MAX);
            }
        }
        if sums_fit(qs) {
            assert forall|i: int| 0 <= i < ps[0].len() implies #[trigger] column_sum(
                ps,
                i,
                ps.len() as int,
            ) <= u128::MAX by {
                assert(column_sum(qs, i, qs.len() as int) <= u128::MAX);
            }
        }
    }
    assert(averaged(qs) =~= averaged(ps));
}

} // verus!
