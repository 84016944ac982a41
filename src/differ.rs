//! Differential profiles of two programs, through inferno.
use crate::average::{
    average_profile_texts, average_text, average_text_outcome, averages, texts_view,
    AverageTextError,
};
use crate::folded::{
    parse_profile, profile_result, split_lines, total_count, total_in_usize,
};
use crate::rename::{normalize, normalize_labels};
use vstd::multiset::Multiset;
use vstd::prelude::*;

verus! {

#[verifier::external_type_specification]
#[verifier::external_body]
pub struct ExIoError(std::io::Error);

/// The lines that inferno's differencer writes for two profile texts and its
/// two flags, as a multiset: they come out in the order of a hash map.
pub uninterp spec fn differential_lines(
    before: Seq<u8>,
    after: Seq<u8>,
    normalize: bool,
    strip_hex: bool,
) -> Multiset<Seq<u8>>;

/// Whether the differencer can take `t`: it is a profile whose counts sum to
/// at most `usize::MAX`.
pub open spec fn differencer_accepts(t: Seq<u8>) -> bool {
    profile_result(t) is Ok && total_count(profile_result(t)->Ok_0) <= usize::MAX
}

/// Relies on inferno::differential::from_readers: it reads both texts line by
/// line, adds each line's count to a `usize` total of its text (hence the
/// bound on the totals), and writes one line per stack. Reading from a
/// `Cursor` and writing into a `Vec` cannot fail, so it returns `Ok`. The
/// lines come out in the order of a hash map, so only their multiset is named.
#[verifier::external_body]
fn inferno_differential(
    before: &[u8],
    after: &[u8],
    normalize: bool,
    strip_hex: bool,
) -> (r: Result<Vec<u8>, std::io::Error>)
    requires
        differencer_accepts(before@),
        differencer_accepts(after@),
    ensures
        r is Ok,
        r is Ok ==> split_lines(r->Ok_0@).to_multiset() == differential_lines(
            before@,
            after@,
            normalize,
            strip_hex,
        ),
{
    let mut out: Vec<u8> = Vec::new();
    let opt = inferno::differential::Options { normalize, strip_hex };
    let res = inferno::differential::from_readers(
        opt,
        std::io::Cursor::new(before),
        std::io::Cursor::new(after),
        &mut out,
    );
    match res {
        Ok(()) => Ok(out),
        Err(e) => Err(e),
    }
}

/// Why two profile texts have no differential profile.
#[derive(Clone, Copy, Debug, PartialEq, Eq, Structural)]
pub enum DiffError {
    /// One of the texts is not a profile.
    Malformed,
    /// The counts of one of the texts sum to more than `usize::MAX`.
    TooManySamples,
}

/// Why no comparison of two programs came out.
#[derive(Clone, Copy, Debug, PartialEq, Eq, Structural)]
pub enum CompareError {
    /// The profiles of the first program have no average.
    Before(AverageTextError),
    /// The profiles of the second program have no average.
    After(AverageTextError),
    /// The two renamed averages have no differential profile.
    Difference(DiffError),
}

/// The averaged and renamed profiles of two programs, and their differential profile.
pub struct Comparison {
    pub before: Vec<u8>,
    pub after: Vec<u8>,
    pub difference: Vec<u8>,
}

/// What differencing two texts gives: the lines of their differential
/// profile, with the first scaled so that both have the same total count and
/// addresses kept as they are, or exactly one of the errors.
pub open spec fn difference_outcome(
    before: Seq<u8>,
    after: Seq<u8>,
    r: Result<Seq<u8>, DiffError>,
) -> bool {
    match r {
        Ok(out) => {
            &&& differencer_accepts(before)
            &&& differencer_accepts(after)
            &&& split_lines(out).to_multiset() == differential_lines(before, after, true, false)
        },
        Err(DiffError::Malformed) => !(profile_result(before) is Ok && profile_result(after) is Ok),
        Err(DiffError::TooManySamples) => {
            &&& profile_result(before) is Ok
            &&& profile_result(after) is Ok
            &&& !(differencer_accepts(before) && differencer_accepts(after))
        },
    }
}

/// Whether the profile text `t` parses and its counts sum to at most `usize::MAX`,
/// or why not.
fn check_for_differencer(t: &[u8]) -> (r: Result<(), DiffError>)
    ensures
        r is Ok <==> differencer_accepts(t@),
        r == Err::<(), DiffError>(DiffError::Malformed) <==> profile_result(t@) is Err,
{
    match parse_profile(t) {
        Err(_) => Err(DiffError::Malformed),
        Ok(frames) => match total_in_usize(&frames) {
            None => Err(DiffError::TooManySamples),
            Some(_) => Ok(()),
        },
    }
}

/// The differential profile of two profile texts, with the first scaled so
/// that both have the same total count, and addresses kept as they are.
pub fn differential_profile(before: &[u8], after: &[u8]) -> (r: Result<Vec<u8>, DiffError>)
    ensures
        difference_outcome(
            before@,
            after@,
            match r {
                Ok(out) => Ok(out@),
                Err(e) => Err(e),
            },
        ),
{
    let one = check_for_differencer(before);
    let two = check_for_differencer(after);
    let one_malformed = matches!(one, Err(DiffError::Malformed));
    let two_malformed = matches!(two, Err(DiffError::Malformed));
    if one_malformed || two_malformed {
        return Err(DiffError::Malformed);
    }
    if one.is_err() || two.is_err() {
        return Err(DiffError::TooManySamples);
    }
    match inferno_differential(before, after, true, false) {
        Ok(out) => Ok(out),
        Err(_) => Err(DiffError::Malformed),
    }
}

/// Averages the profiles of each of two programs, renames each program's
/// module and file tokens to the shared name, and differences the two.
pub fn compare_profiles(
    before: &Vec<Vec<u8>>,
    after: &Vec<Vec<u8>>,
    before_name: &[u8],
    after_name: &[u8],
    shared_name: &[u8],
) -> (r: Result<Comparison, CompareError>)
    ensures
        match r {
            Err(CompareError::Before(e)) => average_text_outcome(texts_view(before@), Err(e)),
            Err(CompareError::After(e)) => {
                &&& averages(texts_view(before@))
                &&& average_text_outcome(texts_view(after@), Err(e))
            },
            Err(CompareError::Difference(e)) => {
                &&& averages(texts_view(before@))
                &&& averages(texts_view(after@))
                &&& difference_outcome(
                    normalize(average_text(texts_view(before@)), before_name@, shared_name@),
                    normalize(average_text(texts_view(after@)), after_name@, shared_name@),
                    Err(e),
                )
            },
            Ok(c) => {
                &&& averages(texts_view(before@))
                &&& averages(texts_view(after@))
                &&& c.before@ == normalize(
                    average_text(texts_view(before@)),
                    before_name@,
                    shared_name@,
                )
                &&& c.after@ == normalize(
                    average_text(texts_view(after@)),
                    after_name@,
                    shared_name@,
                )
                &&& difference_outcome(c.before@, c.after@, Ok(c.difference@))
            },
        },
{
    let one = match average_profile_texts(before) {
        Ok(t) => t,
        Err(e) => return Err(CompareError::Before(e)),
    };
    let two = match average_profile_texts(after) {
        Ok(t) => t,
        Err(e) => return Err(CompareError::After(e)),
    };
    let one = normalize_labels(one.as_slice(), before_name, shared_name);
    let two = normalize_labels(two.as_slice(), after_name, shared_name);
    match differential_profile(one.as_slice(), two.as_slice()) {
        Ok(difference) => Ok(Comparison { before: one, after: two, difference }),
        Err(e) => Err(CompareError::Difference(e)),
    }
}

} // verus!
