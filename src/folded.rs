//! Folded-stack profiles: one `<label> <count>` line per stack.
use vstd::prelude::*;

verus! {

/// The byte that separates a stack label from its count.
pub const SPACE: u8 = 32;

/// The byte that ends a line.
pub const NEWLINE: u8 = 10;

/// Index of the last space in `s`, or -1 when there is none.
pub open spec fn last_space(s: Seq<u8>) -> int
    decreases s.len(),
{
    if s.len() == 0 {
        -1
    } else if s.last() == SPACE {
        s.len() - 1
    } else {
        last_space(s.drop_last())
    }
}

pub open spec fn is_digit(b: u8) -> bool {
    48 <= b <= 57
}

pub open spec fn all_digits(s: Seq<u8>) -> bool {
    forall|i: int| 0 <= i < s.len() ==> is_digit(#[trigger] s[i])
}

/// The number that a run of decimal digits denotes.
pub open spec fn digits_value(s: Seq<u8>) -> nat
    decreases s.len(),
{
    if s.len() == 0 {
        0
    } else {
        digits_value(s.drop_last()) * 10 + (s.last() - 48) as nat
    }
}

pub const PLUS: u8 = 43;

/// The digits of a count: what follows one leading `+`, if there is one.
pub open spec fn unsigned_digits(s: Seq<u8>) -> Seq<u8> {
    if s.len() > 0 && s[0] == PLUS {
        s.skip(1)
    } else {
        s
    }
}

/// Whether `s` is a base-10 count, with an optional leading `+`, that fits in a `u128`.
pub open spec fn valid_count(s: Seq<u8>) -> bool {
    let d = unsigned_digits(s);
    d.len() > 0 && all_digits(d) && digits_value(d) <= u128::MAX
}

/// The number that a count denotes.
pub open spec fn count_value(s: Seq<u8>) -> nat {
    digits_value(unsigned_digits(s))
}

/// The decimal digits of `n`, most significant first, without leading zeros.
pub open spec fn decimal(n: nat) -> Seq<u8>
    decreases n,
{
    if n < 10 {
        seq![(48 + n) as u8]
    } else {
        decimal(n / 10) + seq![(48 + n % 10) as u8]
    }
}

/// The last space is a space, and no space follows it.
pub proof fn lemma_last_space(s: Seq<u8>)
    ensures
        -1 <= last_space(s) < s.len(),
        last_space(s) >= 0 ==> s[last_space(s)] == SPACE,
        forall|j: int| last_space(s) < j < s.len() ==> s[j] != SPACE,
    decreases s.len(),
{
    if s.len() > 0 && s.last() != SPACE {
        lemma_last_space(s.drop_last());
        assert forall|j: int| last_space(s) < j < s.len() implies s[j] != SPACE by {
            if j < s.len() - 1 {
                assert(s[j] == s.drop_last()[j]);
            }
        }
    }
}

proof fn lemma_last_space_prefix(s: Seq<u8>, i: int)
    requires
        0 <= i < s.len(),
    ensures
        s.take(i + 1).last() == SPACE ==> last_space(s.take(i + 1)) == i,
        s.take(i + 1).last() != SPACE ==> last_space(s.take(i + 1)) == last_space(s.take(i)),
{
    assert(s.take(i + 1).drop_last() =~= s.take(i));
}

/// Position of the last space of `line`.
pub fn find_last_space(line: &[u8]) -> (r: Option<usize>)
    ensures
        r == (if last_space(line@) < 0 {
            None::<usize>
        } else {
            Some(last_space(line@) as usize)
        }),
{
    let mut i: usize = line.len();
    assert(line@.take(i as int) =~= line@);
    while i > 0
        invariant
            i <= line@.len(),
            last_space(line@) == last_space(line@.take(i as int)),
        decreases i,
    {
        proof {
            lemma_last_space_prefix(line@, i - 1);
        }
        if line[i - 1] == SPACE {
            return Some(i - 1);
        }
        i = i - 1;
    }
    None
}

proof fn lemma_digits_value_mono(s: Seq<u8>, i: int, j: int)
    requires
        0 <= i <= j <= s.len(),
        all_digits(s),
    ensures
        digits_value(s.take(i)) <= digits_value(s.take(j)),
    decreases j - i,
{
    if i < j {
        lemma_digits_value_mono(s, i, j - 1);
        assert(s.take(j).drop_last() =~= s.take(j - 1));
    }
}

/// Reads a count written in base 10, with an optional leading `+`.
pub fn parse_count(text: &[u8]) -> (r: Option<u128>)
    ensures
        r == (if valid_count(text@) {
            Some(count_value(text@) as u128)
        } else {
            None::<u128>
        }),
{
    if text.len() > 0 && text[0] == PLUS {
        let rest = &text[1..text.len()];
        assert(rest@ =~= text@.skip(1));
        parse_digits(rest)
    } else {
        parse_digits(text)
    }
}

/// Reads a run of decimal digits.
fn parse_digits(digits: &[u8]) -> (r: Option<u128>)
    ensures
        r == (if digits@.len() > 0 && all_digits(digits@) && digits_value(digits@) <= u128::MAX {
            Some(digits_value(digits@) as u128)
        } else {
            None::<u128>
        }),
{
    if digits.len() == 0 {
        return None;
    }
    let mut value: u128 = 0;
    let mut i: usize = 0;
    assert(digits@.take(0) =~= Seq::<u8>::empty());
    while i < digits.len()
        invariant
            i <= digits@.len(),
            forall|j: int| 0 <= j < i ==> is_digit(#[trigger] digits@[j]),
            value as nat == digits_value(digits@.take(i as int)),
        decreases digits@.len() - i,
    {
        let b = digits[i];
        if b < 48 || b > 57 {
            return None;
        }
        let d: u128 = (b - 48) as u128;
        assert(digits@.take(i + 1).drop_last() =~= digits@.take(i as int));
        if value > (u128::MAX - d) / 10 {
            proof {
                assert(value * 10 + d > u128::MAX) by (nonlinear_arith)
                    requires
                        value > (u128::MAX - d) / 10,
                        d <= 9,
                ;
                if all_digits(digits@) {
                    lemma_digits_value_mono(digits@, i + 1, digits@.len() as int);
                    assert(digits@.take(digits@.len() as int) =~= digits@);
                }
            }
            return None;
        }
        proof {
            assert(value * 10 + d <= u128::MAX) by (nonlinear_arith)
                requires
                    value <= (u128::MAX - d) / 10,
                    d <= 9,
            ;
        }
        value = value * 10 + d;
        i = i + 1;
    }
    assert(digits@.take(i as int) =~= digits@);
    Some(value)
}

/// What can be wrong with a single profile line.
#[derive(Clone, Copy, Debug, PartialEq, Eq, Structural)]
pub enum LineError {
    /// The line holds no space, so it has no count.
    MissingSpace,
    /// What follows the last space is not a base-10 count that fits in a `u128`.
    InvalidCount,
}

/// A malformed line of a profile, with its 1-based line number.
#[derive(Clone, Copy, Debug, PartialEq, Eq, Structural)]
pub struct ProfileError {
    pub line: usize,
    pub kind: LineError,
}

/// One stack of a profile: its label, which keeps the space before the count,
/// and its sample count.
#[derive(Clone, Debug, PartialEq, Eq)]
pub struct Frame {
    pub label: Vec<u8>,
    pub count: u128,
}

/// A frame as plain values: (label, count).
pub type FrameView = (Seq<u8>, u128);

impl View for Frame {
    type V = FrameView;

    open spec fn view(&self) -> FrameView {
        (self.label@, self.count)
    }
}

pub open spec fn frames_view(v: Seq<Frame>) -> Seq<FrameView> {
    v.map_values(|f: Frame| f@)
}

/// A line split at its last space: the label up to and including that space,
/// and the count after it.
pub open spec fn line_result(s: Seq<u8>) -> Result<FrameView, LineError> {
    let k = last_space(s);
    if k < 0 {
        Err(LineError::MissingSpace)
    } else if !valid_count(s.skip(k + 1)) {
        Err(LineError::InvalidCount)
    } else {
        Ok((s.take(k + 1), count_value(s.skip(k + 1)) as u128))
    }
}

/// Copies a run of bytes into a vector of its own.
pub fn copy_bytes(s: &[u8]) -> (r: Vec<u8>)
    ensures
        r@ == s@,
{
    let mut r: Vec<u8> = Vec::new();
    let mut i: usize = 0;
    while i < s.len()
        invariant
            i <= s@.len(),
            r@ == s@.take(i as int),
        decreases s@.len() - i,
    {
        r.push(s[i]);
        i = i + 1;
        assert(r@ =~= s@.take(i as int));
    }
    assert(s@.take(i as int) =~= s@);
    r
}

/// Splits one line at its last space into a label and a count.
pub fn parse_line(line: &[u8]) -> (r: Result<Frame, LineError>)
    ensures
        line_result(line@) == (match r {
            Ok(f) => Ok(f@),
            Err(e) => Err(e),
        }),
{
    proof {
        lemma_last_space(line@);
    }
    match find_last_space(line) {
        None => Err(LineError::MissingSpace),
        Some(k) => {
            let n = line.len();
            assert(k < n);
            let label = copy_bytes(&line[0..k + 1]);
            let digits = &line[k + 1..line.len()];
            assert(digits@ =~= line@.skip(k + 1));
            assert(label@ =~= line@.take(k + 1));
            match parse_count(digits) {
                None => Err(LineError::InvalidCount),
                Some(count) => Ok(Frame { label, count }),
            }
        }
    }
}

/// Length of the first line of `s`: the index of its first newline, or its length.
pub open spec fn newline_pos(s: Seq<u8>) -> nat
    decreases s.len(),
{
    if s.len() == 0 {
        0
    } else if s[0] == NEWLINE {
        0
    } else {
        1 + newline_pos(s.skip(1))
    }
}

/// The lines of a text; a final newline ends the last line and starts no new one.
pub open spec fn split_lines(s: Seq<u8>) -> Seq<Seq<u8>>
    decreases s.len(),
{
    if s.len() == 0 {
        seq![]
    } else {
        let k = newline_pos(s);
        if k < s.len() {
            seq![s.take(k as int)] + split_lines(s.skip((k + 1) as int))
        } else {
            seq![s]
        }
    }
}

/// The frames of a sequence of lines, or the first malformed line.
pub open spec fn parse_lines(ls: Seq<Seq<u8>>) -> Result<Seq<FrameView>, ProfileError>
    decreases ls.len(),
{
    if ls.len() == 0 {
        Ok(seq![])
    } else {
        match parse_lines(ls.drop_last()) {
            Err(e) => Err(e),
            Ok(fs) => match line_result(ls.last()) {
                Err(kind) => Err(ProfileError { line: ls.len() as usize, kind }),
                Ok(f) => Ok(fs.push(f)),
            },
        }
    }
}

/// The frames of a profile text, or its first malformed line.
pub open spec fn profile_result(text: Seq<u8>) -> Result<Seq<FrameView>, ProfileError> {
    parse_lines(split_lines(text))
}

proof fn lemma_newline_pos(s: Seq<u8>, k: int)
    requires
        0 <= k <= s.len(),
        forall|j: int| 0 <= j < k ==> s[j] != NEWLINE,
        k == s.len() || s[k] == NEWLINE,
    ensures
        newline_pos(s) == k,
    decreases k,
{
    if k > 0 {
        lemma_newline_pos(s.skip(1), k - 1);
    }
}

proof fn lemma_parse_lines_err(a: Seq<Seq<u8>>, b: Seq<Seq<u8>>)
    requires
        parse_lines(a) is Err,
    ensures
        parse_lines(a + b) == parse_lines(a),
    decreases b.len(),
{
    if b.len() == 0 {
        assert(a + b =~= a);
    } else {
        lemma_parse_lines_err(a, b.drop_last());
        assert((a + b).drop_last() =~= a + b.drop_last());
    }
}

/// Parses a profile text into its frames, in the order of its lines.
pub fn parse_profile(text: &[u8]) -> (r: Result<Vec<Frame>, ProfileError>)
    ensures
        profile_result(text@) == (match r {
            Ok(v) => Ok(frames_view(v@)),
            Err(e) => Err(e),
        }),
{
    let mut frames: Vec<Frame> = Vec::new();
    let mut start: usize = 0;
    let ghost mut done: Seq<Seq<u8>> = seq![];
    assert(frames_view(frames@) =~= seq![]);
    assert(text@.skip(0) =~= text@);
    assert(split_lines(text@) =~= done + split_lines(text@.skip(0)));
    while start < text.len()
        invariant
            start <= text@.len(),
            split_lines(text@) == done + split_lines(text@.skip(start as int)),
            parse_lines(done) == Ok::<Seq<FrameView>, ProfileError>(frames_view(frames@)),
            done.len() == frames@.len(),
            done.len() <= start,
        decreases text@.len() - start,
    {
        let mut end: usize = start;
        while end < text.len() && text[end] != NEWLINE
            invariant
                start <= end <= text@.len(),
                forall|j: int| start <= j < end ==> text@[j] != NEWLINE,
            decreases text@.len() - end,
        {
            end = end + 1;
        }
        let ghost rest = text@.skip(start as int);
        let ghost line = text@.subrange(start as int, end as int);
        proof {
            lemma_newline_pos(rest, end - start);
            assert(rest.take(end - start) =~= line);
            if end < text.len() {
                assert(rest.skip(end - start + 1) =~= text@.skip(end + 1));
            }
            assert(done.push(line).drop_last() =~= done);
        }
        match parse_line(&text[start..end]) {
            Err(kind) => {
                proof {
                    let tail = if end < text.len() {
                        split_lines(text@.skip(end + 1))
                    } else {
                        seq![]
                    };
                    assert(split_lines(text@) =~= done.push(line) + tail);
                    lemma_parse_lines_err(done.push(line), tail);
                }
                return Err(ProfileError { line: frames.len() + 1, kind });
            },
            Ok(f) => {
                let ghost before = frames@;
                frames.push(f);
                assert(frames_view(frames@) =~= frames_view(before).push(f@));
            },
        }
        if end < text.len() {
            proof {
                assert(split_lines(text@) =~= done.push(line) + split_lines(text@.skip(end + 1)));
                done = done.push(line);
            }
            start = end + 1;
        } else {
            proof {
                assert(split_lines(text@) =~= done.push(line));
                assert(text@.skip(text@.len() as int) =~= Seq::<u8>::empty());
                done = done.push(line);
            }
            start = text.len();
        }
    }
    assert(text@.skip(start as int) =~= Seq::<u8>::empty());
    assert(done =~= split_lines(text@));
    Ok(frames)
}

/// The text of one frame: its label followed by its count in base 10.
pub open spec fn frame_line(f: FrameView) -> Seq<u8> {
    f.0 + decimal(f.1 as nat)
}

/// The text of a profile: its frames' lines joined by newlines.
pub open spec fn render(fs: Seq<FrameView>) -> Seq<u8>
    decreases fs.len(),
{
    if fs.len() == 0 {
        seq![]
    } else if fs.len() == 1 {
        frame_line(fs[0])
    } else {
        frame_line(fs[0]) + seq![NEWLINE] + render(fs.skip(1))
    }
}

/// A label that a parsed line can have: it ends with the space before the
/// count and holds no newline.
pub open spec fn label_well_formed(l: Seq<u8>) -> bool {
    &&& l.len() > 0
    &&& l.last() == SPACE
    &&& forall|i: int| 0 <= i < l.len() ==> #[trigger] l[i] != NEWLINE
}

pub open spec fn frames_well_formed(fs: Seq<FrameView>) -> bool {
    forall|i: int| 0 <= i < fs.len() ==> label_well_formed(#[trigger] fs[i].0)
}

proof fn lemma_decimal(n: nat)
    ensures
        decimal(n).len() > 0,
        all_digits(decimal(n)),
        digits_value(decimal(n)) == n,
    decreases n,
{
    if n >= 10 {
        lemma_decimal(n / 10);
        let d = decimal(n);
        assert(d.drop_last() =~= decimal(n / 10));
        assert(d.last() == (48 + n % 10) as u8);
        assert(((48 + n % 10) as u8 - 48) as nat == n % 10);
        assert(digits_value(d) == (n / 10) * 10 + n % 10);
        assert(all_digits(d)) by {
            assert forall|i: int| 0 <= i < d.len() implies is_digit(#[trigger] d[i]) by {
                if i < d.len() - 1 {
                    assert(d[i] == decimal(n / 10)[i]);
                }
            }
        }
    } else {
        assert(decimal(n).drop_last() =~= Seq::<u8>::empty());
        assert(decimal(n).last() == (48 + n) as u8);
        assert(((48 + n) as u8 - 48) as nat == n);
        assert(digits_value(Seq::<u8>::empty()) == 0);
    }
}

proof fn lemma_render_push(fs: Seq<FrameView>, x: FrameView)
    requires
        fs.len() > 0,
    ensures
        render(fs.push(x)) == render(fs) + seq![NEWLINE] + frame_line(x),
    decreases fs.len(),
{
    assert(fs.push(x).skip(1) =~= fs.skip(1).push(x));
    assert(fs.push(x)[0] == fs[0]);
    if fs.len() == 1 {
        assert(fs.skip(1).push(x) =~= seq![x]);
        assert(render(seq![x]) == frame_line(x));
        assert(render(fs) == frame_line(fs[0]));
    } else {
        lemma_render_push(fs.skip(1), x);
        assert(render(fs.push(x)) =~= render(fs) + seq![NEWLINE] + frame_line(x));
    }
}

/// Appends the base-10 digits of `n`.
pub fn write_decimal(n: u128, out: &mut Vec<u8>)
    ensures
        final(out)@ == old(out)@ + decimal(n as nat),
    decreases n,
{
    if n >= 10 {
        write_decimal(n / 10, out);
    }
    out.push(48 + (n % 10) as u8);
    assert(final(out)@ =~= old(out)@ + decimal(n as nat));
}

/// Writes frames back as profile text, one `<label><count>` line each.
pub fn render_profile(frames: &Vec<Frame>) -> (r: Vec<u8>)
    ensures
        r@ == render(frames_view(frames@)),
{
    let mut out: Vec<u8> = Vec::new();
    let mut i: usize = 0;
    while i < frames.len()
        invariant
            i <= frames@.len(),
            out@ == render(frames_view(frames@).take(i as int)),
        decreases frames@.len() - i,
    {
        let ghost prefix = frames_view(frames@).take(i as int);
        let ghost f = frames@[i as int]@;
        assert(frames_view(frames@).take(i + 1) =~= prefix.push(f));
        if i > 0 {
            out.push(NEWLINE);
            proof {
                lemma_render_push(prefix, f);
            }
        } else {
            assert(prefix.push(f) =~= seq![f]);
        }
        let ghost mid = out@;
        let label = &frames[i].label;
        let mut j: usize = 0;
        while j < label.len()
            invariant
                j <= label@.len(),
                out@ == mid + label@.take(j as int),
            decreases label@.len() - j,
        {
            out.push(label[j]);
            j = j + 1;
            assert(out@ =~= mid + label@.take(j as int));
        }
        assert(label@.take(j as int) =~= label@);
        write_decimal(frames[i].count, &mut out);
        i = i + 1;
        assert(out@ =~= render(frames_view(frames@).take(i as int)));
    }
    assert(frames_view(frames@).take(i as int) =~= frames_view(frames@));
    out
}

proof fn lemma_last_space_append(a: Seq<u8>, d: Seq<u8>)
    requires
        forall|i: int| 0 <= i < d.len() ==> #[trigger] d[i] != SPACE,
    ensures
        last_space(a + d) == last_space(a),
    decreases d.len(),
{
    if d.len() == 0 {
        assert(a + d =~= a);
    } else {
        assert((a + d).drop_last() =~= a + d.drop_last());
        lemma_last_space_append(a, d.drop_last());
    }
}

proof fn lemma_frame_line(f: FrameView)
    requires
        label_well_formed(f.0),
    ensures
        line_result(frame_line(f)) == Ok::<FrameView, LineError>(f),
        frame_line(f).len() > 0,
        forall|i: int| 0 <= i < frame_line(f).len() ==> #[trigger] frame_line(f)[i] != NEWLINE,
{
    let d = decimal(f.1 as nat);
    let s = frame_line(f);
    lemma_decimal(f.1 as nat);
    assert forall|i: int| 0 <= i < d.len() implies #[trigger] d[i] != SPACE by {
        assert(is_digit(d[i]));
    }
    lemma_last_space_append(f.0, d);
    assert(is_digit(d[0]));
    assert(unsigned_digits(d) == d);
    assert(f.0.drop_last() + seq![SPACE] =~= f.0);
    assert(last_space(f.0) == f.0.len() - 1);
    assert(s.take(f.0.len() as int) =~= f.0);
    assert(s.skip(f.0.len() as int) =~= d);
    assert forall|i: int| 0 <= i < s.len() implies #[trigger] s[i] != NEWLINE by {
        if i >= f.0.len() {
            assert(is_digit(d[i - f.0.len()]));
        }
    }
}

proof fn lemma_split_render(fs: Seq<FrameView>)
    requires
        frames_well_formed(fs),
    ensures
        split_lines(render(fs)) == fs.map_values(|f: FrameView| frame_line(f)),
    decreases fs.len(),
{
    if fs.len() > 0 {
        let first = frame_line(fs[0]);
        lemma_frame_line(fs[0]);
        let s = render(fs);
        if fs.len() == 1 {
            lemma_newline_pos(s, s.len() as int);
        } else {
            let rest = fs.skip(1);
            assert(frames_well_formed(rest)) by {
                assert forall|i: int| 0 <= i < rest.len() implies label_well_formed(
                    #[trigger] rest[i].0,
                ) by {
                    assert(rest[i] == fs[i + 1]);
                }
            }
            lemma_split_render(rest);
            lemma_newline_pos(s, first.len() as int);
            assert(s.take(first.len() as int) =~= first);
            assert(s.skip(first.len() as int + 1) =~= render(rest));
        }
        assert(split_lines(s) =~= fs.map_values(|f: FrameView| frame_line(f)));
    }
}

proof fn lemma_parse_rendered_lines(fs: Seq<FrameView>)
    requires
        frames_well_formed(fs),
    ensures
        parse_lines(fs.map_values(|f: FrameView| frame_line(f))) == Ok::<
            Seq<FrameView>,
            ProfileError,
        >(fs),
    decreases fs.len(),
{
    if fs.len() > 0 {
        let ls = fs.map_values(|f: FrameView| frame_line(f));
        assert(ls.drop_last() =~= fs.drop_last().map_values(|f: FrameView| frame_line(f)));
        assert(frames_well_formed(fs.drop_last())) by {
            assert forall|i: int| 0 <= i < fs.drop_last().len() implies label_well_formed(
                #[trigger] fs.drop_last()[i].0,
            ) by {
                assert(fs.drop_last()[i] == fs[i]);
            }
        }
        lemma_parse_rendered_lines(fs.drop_last());
        lemma_frame_line(fs.last());
        assert(ls.last() == frame_line(fs.last()));
        assert(parse_lines(ls.drop_last()) == Ok::<Seq<FrameView>, ProfileError>(fs.drop_last()));
        assert(line_result(ls.last()) == Ok::<FrameView, LineError>(fs.last()));
        assert(fs.drop_last().push(fs.last()) =~= fs);
    } else {
        assert(fs =~= seq![]);
    }
}

/// Writing well-formed frames as text and parsing that text gives the same
/// frames back, in the same order.
pub proof fn lemma_round_trip(fs: Seq<FrameView>)
    requires
        frames_well_formed(fs),
    ensures
        profile_result(render(fs)) == Ok::<Seq<FrameView>, ProfileError>(fs),
{
    lemma_split_render(fs);
    lemma_parse_rendered_lines(fs);
}

proof fn lemma_newline_pos_props(s: Seq<u8>)
    ensures
        newline_pos(s) <= s.len(),
        forall|j: int| 0 <= j < newline_pos(s) ==> s[j] != NEWLINE,
        newline_pos(s) < s.len() ==> s[newline_pos(s) as int] == NEWLINE,
    decreases s.len(),
{
    if s.len() > 0 && s[0] != NEWLINE {
        lemma_newline_pos_props(s.skip(1));
        assert forall|j: int| 0 <= j < newline_pos(s) implies s[j] != NEWLINE by {
            if j > 0 {
                assert(s[j] == s.skip(1)[j - 1]);
            }
        }
    }
}

proof fn lemma_split_lines_no_newline(s: Seq<u8>)
    ensures
        forall|i: int, j: int|
            0 <= i < split_lines(s).len() && 0 <= j < split_lines(s)[i].len() ==> #[trigger] split_lines(
                s,
            )[i][j] != NEWLINE,
    decreases s.len(),
{
    if s.len() > 0 {
        let k = newline_pos(s);
        lemma_newline_pos_props(s);
        if k < s.len() {
            lemma_split_lines_no_newline(s.skip(k + 1 as int));
            let ls = split_lines(s);
            assert forall|i: int, j: int|
                0 <= i < ls.len() && 0 <= j < ls[i].len() implies #[trigger] ls[i][j] != NEWLINE by {
                if i > 0 {
                    assert(ls[i] == split_lines(s.skip(k + 1 as int))[i - 1]);
                }
            }
        }
    }
}

proof fn lemma_parse_lines_well_formed(ls: Seq<Seq<u8>>)
    requires
        forall|i: int, j: int| 0 <= i < ls.len() && 0 <= j < ls[i].len() ==> #[trigger] ls[i][j] != NEWLINE,
        parse_lines(ls) is Ok,
    ensures
        frames_well_formed(parse_lines(ls)->Ok_0),
    decreases ls.len(),
{
    if ls.len() > 0 {
        let prev = ls.drop_last();
        assert forall|i: int, j: int| 0 <= i < prev.len() && 0 <= j < prev[i].len() implies #[trigger] prev[i][j] != NEWLINE by {
            assert(prev[i] == ls[i]);
        }
        lemma_parse_lines_well_formed(prev);
        let s = ls.last();
        lemma_last_space(s);
        let k = last_space(s);
        let label = s.take(k + 1);
        assert(label.last() == SPACE);
        assert forall|j: int| 0 <= j < label.len() implies #[trigger] label[j] != NEWLINE by {
            assert(ls[ls.len() - 1][j] != NEWLINE);
        }
        let fs = parse_lines(ls)->Ok_0;
        assert forall|i: int| 0 <= i < fs.len() implies label_well_formed(#[trigger] fs[i].0) by {
            if i < fs.len() - 1 {
                assert(fs[i] == (parse_lines(prev)->Ok_0)[i]);
            }
        }
    }
}

/// Every frame that parsing yields has a well-formed label.
pub proof fn lemma_parsed_well_formed(text: Seq<u8>)
    ensures
        profile_result(text) is Ok ==> frames_well_formed(profile_result(text)->Ok_0),
{
    lemma_split_lines_no_newline(text);
    if profile_result(text) is Ok {
        lemma_parse_lines_well_formed(split_lines(text));
    }
}

/// The sum of the counts of a profile.
pub open spec fn total_count(fs: Seq<FrameView>) -> nat
    decreases fs.len(),
{
    if fs.len() == 0 {
        0
    } else {
        total_count(fs.drop_last()) + fs.last().1 as nat
    }
}

proof fn lemma_total_count_mono(fs: Seq<FrameView>, i: int, j: int)
    requires
        0 <= i <= j <= fs.len(),
    ensures
        total_count(fs.take(i)) <= total_count(fs.take(j)),
    decreases j - i,
{
    if i < j {
        lemma_total_count_mono(fs, i, j - 1);
        assert(fs.take(j).drop_last() =~= fs.take(j - 1));
    }
}

/// The sum of the counts of a profile, where it fits in a `usize`.
pub fn total_in_usize(frames: &Vec<Frame>) -> (r: Option<usize>)
    ensures
        r == (if total_count(frames_view(frames@)) <= usize::MAX {
            Some(total_count(frames_view(frames@)) as usize)
        } else {
            None::<usize>
        }),
{
    let ghost fs = frames_view(frames@);
    let mut sum: usize = 0;
    let mut i: usize = 0;
    assert(fs.take(0) =~= Seq::<FrameView>::empty());
    while i < frames.len()
        invariant
            fs == frames_view(frames@),
            i <= frames@.len(),
            sum as nat == total_count(fs.take(i as int)),
        decreases frames@.len() - i,
    {
        let c = frames[i].count;
        assert(fs.take(i + 1).drop_last() =~= fs.take(i as int));
        assert(fs[i as int].1 == c);
        if c > (usize::MAX - sum) as u128 {
            proof {
                lemma_total_count_mono(fs, i + 1, fs.len() as int);
                assert(fs.take(fs.len() as int) =~= fs);
            }
            return None;
        }
        sum = sum + c as usize;
        i = i + 1;
    }
    assert(fs.take(i as int) =~= fs);
    Some(sum)
}

} // verus!
