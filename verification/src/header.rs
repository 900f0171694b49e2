//! The six-line ASCII header and the simulation-wide parameters.
//!
//! A trajectory opens with six newline-terminated text lines, in fixed
//! order: particle count, total steps, snapshot interval, dimensionality,
//! timestep, interaction range. The first four convert to machine words;
//! the last two are single-precision decimal literals. They are metadata
//! the delta computation never reads, so the decoder validates their
//! syntax and retains their text unaltered.

use vstd::prelude::*;
use crate::error::TrajError;

verus! {

/// Simulation-wide parameters, immutable once decoded.
#[derive(Debug)]
pub struct Parameters {
    /// Particles per snapshot; positive.
    pub particle_count: usize,
    /// Total simulation steps recorded.
    pub total_steps: usize,
    /// Steps between stored snapshots; positive.
    pub snapshot_interval: usize,
    /// Spatial dimensionality; positive.
    pub dimensions: usize,
    /// Timestep line, validated single-precision literal text.
    pub timestep_text: Vec<u8>,
    /// Interaction-range line, validated single-precision literal text.
    pub interaction_range_text: Vec<u8>,
}

/// Mathematical image of [`Parameters`].
#[verifier::ext_equal]
pub ghost struct ParamsView {
    pub particle_count: int,
    pub total_steps: int,
    pub snapshot_interval: int,
    pub dimensions: int,
    pub timestep_text: Seq<u8>,
    pub interaction_range_text: Seq<u8>,
}

impl ParamsView {
    /// Well-formedness: positive counts, and a snapshot count that fits
    /// the machine word.
    pub open spec fn wf(self) -> bool {
        &&& self.particle_count > 0
        &&& self.snapshot_interval > 0
        &&& self.dimensions > 0
        &&& 0 <= self.total_steps <= usize::MAX as int
        &&& self.particle_count <= usize::MAX as int
        &&& self.dimensions <= usize::MAX as int
        &&& self.snapshot_interval <= usize::MAX as int
        &&& self.total_steps / self.snapshot_interval < usize::MAX as int
    }

    /// Number of recorded snapshots: `total_steps / snapshot_interval + 1`.
    pub open spec fn snapshot_count(self) -> int {
        self.total_steps / self.snapshot_interval + 1
    }

    /// Bytes of one binary particle record.
    pub open spec fn record_size(self) -> int {
        4 * self.dimensions + 8
    }

    /// Bytes of one binary snapshot block.
    pub open spec fn snapshot_size(self) -> int {
        self.particle_count * self.record_size()
    }

    /// Bytes of the whole binary section.
    pub open spec fn total_bytes(self) -> int {
        self.snapshot_count() * self.snapshot_size()
    }
}

impl View for Parameters {
    type V = ParamsView;

    open spec fn view(&self) -> ParamsView {
        ParamsView {
            particle_count: self.particle_count as int,
            total_steps: self.total_steps as int,
            snapshot_interval: self.snapshot_interval as int,
            dimensions: self.dimensions as int,
            timestep_text: self.timestep_text@,
            interaction_range_text: self.interaction_range_text@,
        }
    }
}

impl Parameters {
    /// Well-formedness of the decoded parameters.
    pub open spec fn wf(&self) -> bool {
        self@.wf()
    }

    /// A zeroed placeholder, not yet well formed.
    pub fn new() -> (r: Parameters)
        ensures
            r.particle_count == 0,
            r.total_steps == 0,
            r.snapshot_interval == 0,
            r.dimensions == 0,
            r.timestep_text@ == Seq::<u8>::empty(),
            r.interaction_range_text@ == Seq::<u8>::empty(),
    {
        Parameters {
            particle_count: 0,
            total_steps: 0,
            snapshot_interval: 0,
            dimensions: 0,
            timestep_text: Vec::new(),
            interaction_range_text: Vec::new(),
        }
    }

    /// Number of recorded snapshots.
    pub fn exit_steps(&self) -> (r: usize)
        requires
            self.wf(),
        ensures
            r == self@.snapshot_count(),
    {
        self.total_steps / self.snapshot_interval + 1
    }
}

/// ASCII decimal digit.
pub open spec fn is_ascii_digit(c: u8) -> bool {
    48 <= c <= 57
}

/// Value of a digit string, most significant first.
pub open spec fn digits_value(s: Seq<u8>) -> int
    decreases s.len(),
{
    if s.len() == 0 {
        0
    } else {
        digits_value(s.drop_last()) * 10 + (s.last() - 48)
    }
}

/// Every byte is a decimal digit.
pub open spec fn all_digits(s: Seq<u8>) -> bool {
    forall|i: int| 0 <= i < s.len() ==> is_ascii_digit(s[i])
}

/// The digits of an unsigned integer literal: an optional leading `+`
/// is dropped.
pub open spec fn int_body(s: Seq<u8>) -> Seq<u8> {
    if s.len() > 0 && s[0] == 43 {
        s.subrange(1, s.len() as int)
    } else {
        s
    }
}

/// The text is a valid unsigned integer literal.
pub open spec fn is_int_text(s: Seq<u8>) -> bool {
    int_body(s).len() > 0 && all_digits(int_body(s))
}

/// Mathematical value of a valid unsigned integer literal.
pub open spec fn int_text_value(s: Seq<u8>) -> int {
    digits_value(int_body(s))
}

proof fn lemma_digits_value_nonneg(s: Seq<u8>)
    requires
        all_digits(s),
    ensures
        digits_value(s) >= 0,
    decreases s.len(),
{
    if s.len() > 0 {
        assert(all_digits(s.drop_last()));
        lemma_digits_value_nonneg(s.drop_last());
    }
}

/// Reading further digits can only increase the value.
proof fn lemma_digits_prefix_le(s: Seq<u8>, j: int)
    requires
        all_digits(s),
        0 <= j <= s.len(),
    ensures
        digits_value(s.subrange(0, j)) <= digits_value(s),
    decreases s.len() - j,
{
    if j == s.len() {
        assert(s.subrange(0, j) =~= s);
    } else {
        lemma_digits_prefix_le(s, j + 1);
        let sj = s.subrange(0, j + 1);
        assert(sj.drop_last() =~= s.subrange(0, j));
        assert(all_digits(s.subrange(0, j)));
        lemma_digits_value_nonneg(s.subrange(0, j));
        assert(digits_value(sj) == digits_value(s.subrange(0, j)) * 10 + (sj.last() - 48));
    }
}

/// Parse an unsigned integer line, as the header's first four fields
/// require: an optional `+`, then decimal digits; rejected on any other
/// byte, on an empty body, and on overflow of the machine word.
pub fn parse_usize(line: &[u8]) -> (r: Option<usize>)
    ensures
        r is Some <==> is_int_text(line@) && int_text_value(line@) <= usize::MAX as int,
        r is Some ==> r == Some(int_text_value(line@) as usize) && 0 <= int_text_value(line@)
            <= usize::MAX as int,
{
    let n = line.len();
    let start: usize = if n > 0 && line[0] == 43 {
        1
    } else {
        0
    };
    let ghost body = int_body(line@);
    proof {
        assert(body =~= line@.subrange(start as int, n as int));
    }
    if start >= n {
        return None;
    }
    let mut acc: usize = 0;
    let mut i: usize = start;
    while i < n
        invariant
            start <= i <= n,
            n == line@.len(),
            body == int_body(line@),
            body =~= line@.subrange(start as int, n as int),
            forall|k: int| start <= k < i ==> is_ascii_digit(line@[k]),
            acc == digits_value(line@.subrange(start as int, i as int)),
        decreases n - i,
    {
        let c = line[i];
        if c < 48 || c > 57 {
            proof {
                let idx = i - start as int;
                assert(body[idx] == line@[i as int]);
                assert(!is_ascii_digit(body[idx]));
                assert(!is_int_text(line@));
            }
            return None;
        }
        let d: usize = (c - 48) as usize;
        let ghost next_seg = line@.subrange(start as int, i + 1);
        proof {
            assert(next_seg.drop_last() =~= line@.subrange(start as int, i as int));
            assert(next_seg.last() == line@[i as int]);
        }
        if acc > (usize::MAX - d) / 10 {
            proof {
                let q = (usize::MAX as int - d) / 10;
                vstd::arithmetic::div_mod::lemma_fundamental_div_mod(
                    usize::MAX as int - d,
                    10,
                );
                assert(acc * 10 + d > usize::MAX as int);
                if is_int_text(line@) {
                    assert(all_digits(body));
                    lemma_digits_prefix_le(body, i + 1 - start);
                    assert(body.subrange(0, i + 1 - start) =~= next_seg);
                    assert(digits_value(next_seg) == acc * 10 + d);
                    assert(int_text_value(line@) > usize::MAX as int);
                }
            }
            return None;
        }
        proof {
            let q = (usize::MAX as int - d) / 10;
            vstd::arithmetic::div_mod::lemma_fundamental_div_mod(usize::MAX as int - d, 10);
            assert(acc <= q);
            assert(acc * 10 <= q * 10);
            assert(acc * 10 + d <= usize::MAX as int);
        }
        acc = acc * 10 + d;
        i = i + 1;
    }
    proof {
        assert(line@.subrange(start as int, n as int) =~= body);
        assert(acc == int_text_value(line@));
        assert(is_int_text(line@));
    }
    Some(acc)
}

/// ASCII upper-case letters folded to lower case; other bytes unchanged.
pub open spec fn to_lower(c: u8) -> u8 {
    if 65 <= c <= 90 {
        (c + 32) as u8
    } else {
        c
    }
}

/// The text folded to lower case.
pub open spec fn seq_lower(s: Seq<u8>) -> Seq<u8> {
    s.map_values(|c: u8| to_lower(c))
}

/// The text with one leading `+` or `-` dropped.
pub open spec fn strip_sign(s: Seq<u8>) -> Seq<u8> {
    if s.len() > 0 && (s[0] == 43 || s[0] == 45) {
        s.subrange(1, s.len() as int)
    } else {
        s
    }
}

/// `inf`, lower case.
pub open spec fn inf_text() -> Seq<u8> {
    seq![105u8, 110u8, 102u8]
}

/// `infinity`, lower case.
pub open spec fn infinity_text() -> Seq<u8> {
    seq![105u8, 110u8, 102u8, 105u8, 110u8, 105u8, 116u8, 121u8]
}

/// `nan`, lower case.
pub open spec fn nan_text() -> Seq<u8> {
    seq![110u8, 97u8, 110u8]
}

/// An (unsigned) special float form: `inf`, `infinity` or `nan`, in any
/// letter case.
pub open spec fn is_special_float(s: Seq<u8>) -> bool {
    seq_lower(s) == inf_text() || seq_lower(s) == infinity_text() || seq_lower(s) == nan_text()
}

/// Number of `.` bytes in the text.
pub open spec fn count_dots(s: Seq<u8>) -> int
    decreases s.len(),
{
    if s.len() == 0 {
        0
    } else {
        count_dots(s.drop_last()) + if s.last() == 46 {
            1int
        } else {
            0int
        }
    }
}

/// The text holds at least one decimal digit.
pub open spec fn has_digit(s: Seq<u8>) -> bool
    decreases s.len(),
{
    if s.len() == 0 {
        false
    } else {
        has_digit(s.drop_last()) || is_ascii_digit(s.last())
    }
}

/// Every byte is a decimal digit or a dot.
pub open spec fn all_digit_or_dot(s: Seq<u8>) -> bool {
    forall|i: int| 0 <= i < s.len() ==> is_ascii_digit(s[i]) || s[i] == 46
}

/// An (unsigned) mantissa: digits with at most one dot and at least one
/// digit.
pub open spec fn is_mantissa(s: Seq<u8>) -> bool {
    all_digit_or_dot(s) && count_dots(s) <= 1 && has_digit(s)
}

/// An exponent marker byte, `e` or `E`.
pub open spec fn is_e(c: u8) -> bool {
    c == 101 || c == 69
}

/// Index of the first exponent marker at or after `i`, or the length.
pub open spec fn first_e_from(s: Seq<u8>, i: int) -> int
    decreases s.len() - i,
{
    if i < 0 || i >= s.len() {
        s.len() as int
    } else if is_e(s[i]) {
        i
    } else {
        first_e_from(s, i + 1)
    }
}

/// A valid exponent tail: an optional sign, then at least one digit.
pub open spec fn is_exp_part(s: Seq<u8>) -> bool {
    strip_sign(s).len() > 0 && all_digits(strip_sign(s))
}

/// The text is a valid single-precision literal: an optional sign, then
/// either a special form (`inf`, `infinity`, `nan`, any case) or a
/// mantissa with an optional `e`/`E` exponent.
pub open spec fn is_float_text(s: Seq<u8>) -> bool {
    let b = strip_sign(s);
    if is_special_float(b) {
        true
    } else {
        let e = first_e_from(b, 0);
        if e == b.len() {
            is_mantissa(b)
        } else {
            is_mantissa(b.subrange(0, e)) && is_exp_part(b.subrange(e + 1, b.len() as int))
        }
    }
}

proof fn lemma_first_e_at(s: Seq<u8>, i: int, j: int)
    requires
        0 <= i <= j <= s.len(),
        forall|k: int| i <= k < j ==> !is_e(s[k]),
        j == s.len() || is_e(s[j]),
    ensures
        first_e_from(s, i) == j,
    decreases j - i,
{
    if i < j {
        lemma_first_e_at(s, i + 1, j);
    }
}

proof fn lemma_first_e_bounds(s: Seq<u8>, i: int)
    requires
        0 <= i <= s.len(),
    ensures
        i <= first_e_from(s, i) <= s.len(),
    decreases s.len() - i,
{
    if i < s.len() && !is_e(s[i]) {
        lemma_first_e_bounds(s, i + 1);
    }
}

proof fn lemma_first_e_hit(s: Seq<u8>, i: int)
    requires
        0 <= i <= s.len(),
    ensures
        first_e_from(s, i) < s.len() ==> is_e(s[first_e_from(s, i)]),
    decreases s.len() - i,
{
    if i < s.len() && !is_e(s[i]) {
        lemma_first_e_hit(s, i + 1);
    }
}

proof fn lemma_first_e_min(s: Seq<u8>, i: int, j: int)
    requires
        0 <= i <= j <= s.len(),
        forall|k: int| i <= k < j ==> !is_e(s[k]),
    ensures
        first_e_from(s, i) >= j,
    decreases j - i,
{
    if i < j {
        lemma_first_e_min(s, i + 1, j);
    } else {
        lemma_first_e_bounds(s, i);
    }
}

fn to_lower_byte(c: u8) -> (r: u8)
    ensures
        r == to_lower(c),
{
    if 65 <= c && c <= 90 {
        c + 32
    } else {
        c
    }
}

/// Case-insensitive check of the special float forms after the sign.
fn is_special_literal(line: &[u8], start: usize) -> (r: bool)
    requires
        start <= line@.len(),
    ensures
        r == is_special_float(line@.subrange(start as int, line@.len() as int)),
{
    let n = line.len();
    let m = n - start;
    let ghost b = line@.subrange(start as int, n as int);
    proof {
        assert(seq_lower(b).len() == m);
        assert(forall|k: int| 0 <= k < m ==> seq_lower(b)[k] == to_lower(line@[start + k]));
    }
    if m == 3 {
        let c0 = to_lower_byte(line[start]);
        let c1 = to_lower_byte(line[start + 1]);
        let c2 = to_lower_byte(line[start + 2]);
        let inf = c0 == 105 && c1 == 110 && c2 == 102;
        let nan = c0 == 110 && c1 == 97 && c2 == 110;
        proof {
            if inf {
                assert(seq_lower(b) =~= inf_text());
            }
            if nan {
                assert(seq_lower(b) =~= nan_text());
            }
            if !inf && !nan {
                assert(seq_lower(b) != inf_text());
                assert(seq_lower(b) != nan_text());
                assert(seq_lower(b).len() != infinity_text().len());
            }
        }
        inf || nan
    } else if m == 8 {
        let mut ok = true;
        let c0 = to_lower_byte(line[start]);
        let c1 = to_lower_byte(line[start + 1]);
        let c2 = to_lower_byte(line[start + 2]);
        let c3 = to_lower_byte(line[start + 3]);
        let c4 = to_lower_byte(line[start + 4]);
        let c5 = to_lower_byte(line[start + 5]);
        let c6 = to_lower_byte(line[start + 6]);
        let c7 = to_lower_byte(line[start + 7]);
        ok = c0 == 105 && c1 == 110 && c2 == 102 && c3 == 105 && c4 == 110 && c5 == 105 && c6
            == 116 && c7 == 121;
        proof {
            if ok {
                assert(seq_lower(b) =~= infinity_text());
            } else {
                assert(seq_lower(b) != infinity_text());
                assert(seq_lower(b).len() != inf_text().len());
                assert(seq_lower(b).len() != nan_text().len());
            }
        }
        ok
    } else {
        proof {
            assert(seq_lower(b).len() != inf_text().len());
            assert(seq_lower(b).len() != infinity_text().len());
            assert(seq_lower(b).len() != nan_text().len());
        }
        false
    }
}

/// Check one header float line against the single-precision literal
/// grammar.
pub fn is_float_literal(line: &[u8]) -> (r: bool)
    ensures
        r == is_float_text(line@),
{
    let n = line.len();
    let start: usize = if n > 0 && (line[0] == 43 || line[0] == 45) {
        1
    } else {
        0
    };
    let ghost b = strip_sign(line@);
    proof {
        assert(b =~= line@.subrange(start as int, n as int));
    }
    if is_special_literal(line, start) {
        return true;
    }
    let mut i: usize = start;
    let mut dots: usize = 0;
    let mut seen_digit: bool = false;
    while i < n && !(line[i] == 101 || line[i] == 69)
        invariant
            start <= i <= n,
            n == line@.len(),
            b == strip_sign(line@),
            b =~= line@.subrange(start as int, n as int),
            !is_special_float(b),
            forall|k: int| start <= k < i ==> !is_e(line@[k]),
            forall|k: int| start <= k < i ==> is_ascii_digit(line@[k]) || line@[k] == 46,
            dots <= i,
            dots == count_dots(line@.subrange(start as int, i as int)),
            seen_digit == has_digit(line@.subrange(start as int, i as int)),
        decreases n - i,
    {
        let c = line[i];
        let ghost sp = line@.subrange(start as int, i as int);
        let ghost sj = line@.subrange(start as int, i + 1);
        proof {
            assert(sj.drop_last() =~= sp);
            assert(sj.last() == line@[i as int]);
        }
        if !(48 <= c && c <= 57) && c != 46 {
            proof {
                let p = i - start as int;
                assert(b[p] == line@[i as int]);
                lemma_first_e_min(b, 0, p + 1);
                lemma_first_e_bounds(b, 0);
                let e = first_e_from(b, 0);
                if e == b.len() {
                    assert(!(is_ascii_digit(b[p]) || b[p] == 46));
                    assert(!all_digit_or_dot(b));
                } else {
                    assert(b.subrange(0, e)[p] == b[p]);
                    assert(!all_digit_or_dot(b.subrange(0, e)));
                }
            }
            return false;
        }
        if c == 46 {
            dots = dots + 1;
        } else {
            seen_digit = true;
            proof {
                assert(has_digit(sj));
            }
        }
        i = i + 1;
    }
    if i == n {
        proof {
            lemma_first_e_at(b, 0, b.len() as int);
            assert(line@.subrange(start as int, n as int) =~= b);
        }
        return dots <= 1 && seen_digit;
    }
    // exponent marker at i
    let ghost p = i - start as int;
    let ghost mant = b.subrange(0, p);
    proof {
        assert(b[p] == line@[i as int]);
        lemma_first_e_at(b, 0, p);
        assert(mant =~= line@.subrange(start as int, i as int));
    }
    if !(dots <= 1 && seen_digit) {
        return false;
    }
    let ghost tail = b.subrange(p + 1, b.len() as int);
    let mut j: usize = i + 1;
    if j < n && (line[j] == 43 || line[j] == 45) {
        j = j + 1;
    }
    let ghost tb = strip_sign(tail);
    proof {
        assert(tail =~= line@.subrange(i + 1, n as int));
        assert(tb =~= line@.subrange(j as int, n as int));
    }
    if j >= n {
        proof {
            assert(tb.len() == 0);
        }
        return false;
    }
    proof {
        assert(all_digit_or_dot(mant));
        assert(is_mantissa(mant));
    }
    let mut k: usize = j;
    while k < n
        invariant
            j <= k <= n,
            j < n,
            n == line@.len(),
            b == strip_sign(line@),
            !is_special_float(b),
            0 <= p < b.len(),
            first_e_from(b, 0) == p,
            is_mantissa(b.subrange(0, p)),
            tail == b.subrange(p + 1, b.len() as int),
            tb == strip_sign(tail),
            tb =~= line@.subrange(j as int, n as int),
            forall|t: int| j <= t < k ==> is_ascii_digit(line@[t]),
        decreases n - k,
    {
        let c = line[k];
        if c < 48 || c > 57 {
            proof {
                assert(tb[k - j as int] == line@[k as int]);
                assert(!all_digits(tb));
            }
            return false;
        }
        k = k + 1;
    }
    proof {
        assert(all_digits(tb));
        assert(tb.len() > 0);
        assert(is_exp_part(tail));
    }
    true
}

/// Index of the first newline at or after `from`, or the length.
pub open spec fn find_nl(s: Seq<u8>, from: int) -> int
    decreases s.len() - from,
{
    if from < 0 || from >= s.len() {
        s.len() as int
    } else if s[from] == 10 {
        from
    } else {
        find_nl(s, from + 1)
    }
}

/// The line content with one trailing carriage return dropped: producers
/// may end header lines with either `\n` or `\r\n`.
pub open spec fn strip_cr(s: Seq<u8>) -> Seq<u8> {
    if s.len() > 0 && s.last() == 13 {
        s.drop_last()
    } else {
        s
    }
}

/// Start offset of line `k` (0-based), counting terminated lines only.
pub open spec fn line_start(s: Seq<u8>, k: nat) -> int
    decreases k,
{
    if k == 0 {
        0
    } else {
        find_nl(s, line_start(s, (k - 1) as nat)) + 1
    }
}

/// Line `k` is newline-terminated.
pub open spec fn line_ok(s: Seq<u8>, k: nat) -> bool {
    find_nl(s, line_start(s, k)) < s.len()
}

/// Content of line `k`, carriage return stripped.
pub open spec fn header_line(s: Seq<u8>, k: nat) -> Seq<u8> {
    strip_cr(s.subrange(line_start(s, k), find_nl(s, line_start(s, k))))
}

proof fn lemma_find_nl_at(s: Seq<u8>, from: int, j: int)
    requires
        0 <= from <= j <= s.len(),
        forall|k: int| from <= k < j ==> s[k] != 10,
        j == s.len() || s[j] == 10,
    ensures
        find_nl(s, from) == j,
    decreases j - from,
{
    if from < j {
        lemma_find_nl_at(s, from + 1, j);
    }
}

/// Extract one newline-terminated line starting at `start`: its content
/// (carriage return stripped) and the offset just past the newline. `None`
/// when no newline remains.
pub fn take_line(data: &[u8], start: usize) -> (r: Option<(Vec<u8>, usize)>)
    requires
        start <= data@.len(),
    ensures
        (match r {
            Some(p) => {
                &&& find_nl(data@, start as int) < data@.len()
                &&& p.1 == find_nl(data@, start as int) + 1
                &&& p.1 <= data@.len()
                &&& p.0@ == strip_cr(
                    data@.subrange(start as int, find_nl(data@, start as int)),
                )
            },
            None => find_nl(data@, start as int) == data@.len(),
        }),
{
    let n = data.len();
    let mut i: usize = start;
    while i < n && data[i] != 10
        invariant
            start <= i <= n,
            n == data@.len(),
            forall|k: int| start <= k < i ==> data@[k] != 10,
        decreases n - i,
    {
        i = i + 1;
    }
    if i == n {
        proof {
            lemma_find_nl_at(data@, start as int, n as int);
        }
        return None;
    }
    proof {
        lemma_find_nl_at(data@, start as int, i as int);
    }
    let mut line: Vec<u8> = Vec::new();
    let mut j: usize = start;
    while j < i
        invariant
            start <= j <= i < n,
            n == data@.len(),
            line@ == data@.subrange(start as int, j as int),
        decreases i - j,
    {
        let ghost pre = line@;
        line.push(data[j]);
        proof {
            assert(pre.push(data@[j as int]) =~= data@.subrange(start as int, j + 1));
        }
        j = j + 1;
    }
    let ghost seg = data@.subrange(start as int, i as int);
    if line.len() > 0 && line[line.len() - 1] == 13 {
        let _ = line.pop();
        proof {
            assert(seg.len() > 0 && seg.last() == 13);
            assert(line@ =~= strip_cr(seg));
        }
    } else {
        proof {
            assert(line@ == strip_cr(seg));
        }
    }
    Some((line, i + 1))
}

/// A line that converts to a machine-word count.
pub open spec fn usize_line_ok(s: Seq<u8>) -> bool {
    is_int_text(s) && int_text_value(s) <= usize::MAX as int
}

/// The header decode relation: the six lines in fixed order, each either
/// missing (no newline), failing its conversion, or contributing its
/// field; then the domain checks (positive counts, snapshot count within
/// the machine word). On success, the decoded parameters and the offset
/// of the first binary byte.
pub open spec fn header_spec(s: Seq<u8>) -> Result<(ParamsView, int), TrajError> {
    if !line_ok(s, 0) {
        Err(TrajError::IoMissingHeaderLine(0))
    } else if !usize_line_ok(header_line(s, 0)) {
        Err(TrajError::ParseHeader(0))
    } else if !line_ok(s, 1) {
        Err(TrajError::IoMissingHeaderLine(1))
    } else if !usize_line_ok(header_line(s, 1)) {
        Err(TrajError::ParseHeader(1))
    } else if !line_ok(s, 2) {
        Err(TrajError::IoMissingHeaderLine(2))
    } else if !usize_line_ok(header_line(s, 2)) {
        Err(TrajError::ParseHeader(2))
    } else if !line_ok(s, 3) {
        Err(TrajError::IoMissingHeaderLine(3))
    } else if !usize_line_ok(header_line(s, 3)) {
        Err(TrajError::ParseHeader(3))
    } else if !line_ok(s, 4) {
        Err(TrajError::IoMissingHeaderLine(4))
    } else if !is_float_text(header_line(s, 4)) {
        Err(TrajError::ParseHeader(4))
    } else if !line_ok(s, 5) {
        Err(TrajError::IoMissingHeaderLine(5))
    } else if !is_float_text(header_line(s, 5)) {
        Err(TrajError::ParseHeader(5))
    } else {
        let pc = int_text_value(header_line(s, 0));
        let ts = int_text_value(header_line(s, 1));
        let iv = int_text_value(header_line(s, 2));
        let dm = int_text_value(header_line(s, 3));
        if pc == 0 {
            Err(TrajError::ParseHeader(0))
        } else if iv == 0 {
            Err(TrajError::ParseHeader(2))
        } else if dm == 0 {
            Err(TrajError::ParseHeader(3))
        } else if ts / iv >= usize::MAX as int {
            Err(TrajError::ParseHeader(1))
        } else {
            Ok(
                (
                    ParamsView {
                        particle_count: pc,
                        total_steps: ts,
                        snapshot_interval: iv,
                        dimensions: dm,
                        timestep_text: header_line(s, 4),
                        interaction_range_text: header_line(s, 5),
                    },
                    line_start(s, 6),
                ),
            )
        }
    }
}

/// Decode the six header lines from the start of `data`. On success the
/// parameters are well formed and the returned offset marks the first
/// byte of the binary snapshot stream.
pub fn decode_header(data: &[u8]) -> (r: Result<(Parameters, usize), TrajError>)
    ensures
        (match r {
            Ok(p) => {
                &&& header_spec(data@) == Ok::<(ParamsView, int), TrajError>((p.0@, p.1 as int))
                &&& p.0.wf()
                &&& p.1 <= data@.len()
            },
            Err(e) => header_spec(data@) == Err::<(ParamsView, int), TrajError>(e),
        }),
{
    let s0: usize = 0;
    proof {
        assert(line_start(data@, 0) == 0);
    }
    let (l0, s1) = match take_line(data, s0) {
        None => { return Err(TrajError::IoMissingHeaderLine(0)); },
        Some(p) => p,
    };
    proof {
        assert(line_start(data@, 0) == s0 as int);
        assert(line_start(data@, 1) == s1 as int);
        assert(header_line(data@, 0) == l0@);
    }
    let particle_count = match parse_usize(l0.as_slice()) {
        None => { return Err(TrajError::ParseHeader(0)); },
        Some(v) => v,
    };
    let (l1, s2) = match take_line(data, s1) {
        None => { return Err(TrajError::IoMissingHeaderLine(1)); },
        Some(p) => p,
    };
    proof {
        assert(line_start(data@, 1) == s1 as int);
        assert(line_start(data@, 2) == s2 as int);
        assert(header_line(data@, 1) == l1@);
    }
    let total_steps = match parse_usize(l1.as_slice()) {
        None => { return Err(TrajError::ParseHeader(1)); },
        Some(v) => v,
    };
    let (l2, s3) = match take_line(data, s2) {
        None => { return Err(TrajError::IoMissingHeaderLine(2)); },
        Some(p) => p,
    };
    proof {
        assert(line_start(data@, 2) == s2 as int);
        assert(line_start(data@, 3) == s3 as int);
        assert(header_line(data@, 2) == l2@);
    }
    let snapshot_interval = match parse_usize(l2.as_slice()) {
        None => { return Err(TrajError::ParseHeader(2)); },
        Some(v) => v,
    };
    let (l3, s4) = match take_line(data, s3) {
        None => { return Err(TrajError::IoMissingHeaderLine(3)); },
        Some(p) => p,
    };
    proof {
        assert(line_start(data@, 3) == s3 as int);
        assert(line_start(data@, 4) == s4 as int);
        assert(header_line(data@, 3) == l3@);
    }
    let dimensions = match parse_usize(l3.as_slice()) {
        None => { return Err(TrajError::ParseHeader(3)); },
        Some(v) => v,
    };
    let (l4, s5) = match take_line(data, s4) {
        None => { return Err(TrajError::IoMissingHeaderLine(4)); },
        Some(p) => p,
    };
    proof {
        assert(line_start(data@, 4) == s4 as int);
        assert(line_start(data@, 5) == s5 as int);
        assert(header_line(data@, 4) == l4@);
    }
    if !is_float_literal(l4.as_slice()) {
        return Err(TrajError::ParseHeader(4));
    }
    let (l5, s6) = match take_line(data, s5) {
        None => { return Err(TrajError::IoMissingHeaderLine(5)); },
        Some(p) => p,
    };
    proof {
        assert(line_start(data@, 5) == s5 as int);
        assert(line_start(data@, 6) == s6 as int);
        assert(header_line(data@, 5) == l5@);
    }
    if !is_float_literal(l5.as_slice()) {
        return Err(TrajError::ParseHeader(5));
    }
    if particle_count == 0 {
        return Err(TrajError::ParseHeader(0));
    }
    if snapshot_interval == 0 {
        return Err(TrajError::ParseHeader(2));
    }
    if dimensions == 0 {
        return Err(TrajError::ParseHeader(3));
    }
    if total_steps / snapshot_interval >= usize::MAX {
        return Err(TrajError::ParseHeader(1));
    }
    let p = Parameters {
        particle_count,
        total_steps,
        snapshot_interval,
        dimensions,
        timestep_text: l4,
        interaction_range_text: l5,
    };
    Ok((p, s6))
}

/// Decimal digits of a nonnegative integer, most significant first.
pub open spec fn dec_spec(n: int) -> Seq<u8>
    decreases n,
{
    if n < 10 {
        seq![(48 + if n >= 0 { n } else { 0 }) as u8]
    } else {
        dec_spec(n / 10).push((48 + n % 10) as u8)
    }
}

proof fn lemma_dec_spec_digits(n: int)
    requires
        0 <= n,
    ensures
        dec_spec(n).len() > 0,
        all_digits(dec_spec(n)),
        digits_value(dec_spec(n)) == n,
        dec_spec(n)[0] != 43,
    decreases n,
{
    if n < 10 {
        assert(digits_value(dec_spec(n)) == digits_value(dec_spec(n).drop_last()) * 10 + (
        dec_spec(n).last() - 48));
        assert(dec_spec(n).drop_last() =~= Seq::<u8>::empty());
    } else {
        lemma_dec_spec_digits(n / 10);
        let pre = dec_spec(n / 10);
        let whole = pre.push((48 + n % 10) as u8);
        assert(whole.drop_last() =~= pre);
        assert(digits_value(whole) == digits_value(pre) * 10 + (whole.last() - 48));
        vstd::arithmetic::div_mod::lemma_fundamental_div_mod(n, 10);
    }
}

/// Append the decimal digits of `n`.
fn push_dec(out: &mut Vec<u8>, n: usize)
    ensures
        final(out)@ == old(out)@ + dec_spec(n as int),
    decreases n,
{
    if n < 10 {
        out.push(48 + n as u8);
        proof {
            assert(old(out)@.push((48 + n as int) as u8) =~= old(out)@ + dec_spec(n as int));
        }
    } else {
        let ghost mid = old(out)@ + dec_spec(n as int / 10);
        push_dec(out, n / 10);
        out.push(48 + (n % 10) as u8);
        proof {
            assert(mid.push((48 + n as int % 10) as u8) =~= old(out)@ + dec_spec(n as int));
        }
    }
}

/// Append a byte string.
fn push_bytes(out: &mut Vec<u8>, t: &Vec<u8>)
    ensures
        final(out)@ == old(out)@ + t@,
{
    let m = t.len();
    let mut k: usize = 0;
    while k < m
        invariant
            0 <= k <= m,
            m == t@.len(),
            out@ == old(out)@ + t@.subrange(0, k as int),
        decreases m - k,
    {
        let ghost pre = out@;
        out.push(t[k]);
        proof {
            assert(pre.push(t@[k as int]) =~= old(out)@ + t@.subrange(0, k + 1));
        }
        k = k + 1;
    }
    proof {
        assert(t@.subrange(0, m as int) =~= t@);
    }
}

/// The header text of the given parameters: six newline-terminated lines.
pub open spec fn encode_header_spec(p: ParamsView) -> Seq<u8> {
    dec_spec(p.particle_count) + seq![10u8] + dec_spec(p.total_steps) + seq![10u8] + dec_spec(
        p.snapshot_interval,
    ) + seq![10u8] + dec_spec(p.dimensions) + seq![10u8] + p.timestep_text + seq![10u8]
        + p.interaction_range_text + seq![10u8]
}

/// Encode parameters as header text: the four counts in decimal and the
/// two retained float texts, each line newline-terminated.
pub fn encode_header(p: &Parameters) -> (r: Vec<u8>)
    ensures
        r@ == encode_header_spec(p@),
{
    let mut out: Vec<u8> = Vec::new();
    push_dec(&mut out, p.particle_count);
    out.push(10);
    push_dec(&mut out, p.total_steps);
    out.push(10);
    push_dec(&mut out, p.snapshot_interval);
    out.push(10);
    push_dec(&mut out, p.dimensions);
    out.push(10);
    push_bytes(&mut out, &p.timestep_text);
    out.push(10);
    push_bytes(&mut out, &p.interaction_range_text);
    out.push(10);
    proof {
        assert(out@ =~= encode_header_spec(p@));
    }
    out
}

proof fn lemma_float_text_bytes(t: Seq<u8>)
    requires
        is_float_text(t),
    ensures
        forall|k: int| 0 <= k < t.len() ==> t[k] != 10 && t[k] != 13,
{
    let b = strip_sign(t);
    lemma_first_e_bounds(b, 0);
    let e = first_e_from(b, 0);
    assert forall|j: int| 0 <= j < b.len() implies b[j] != 10 && b[j] != 13 by {
        if is_special_float(b) {
            assert(seq_lower(b).len() == b.len());
            assert(inf_text().len() == 3);
            assert(infinity_text().len() == 8);
            assert(nan_text().len() == 3);
            assert(seq_lower(b)[j] == to_lower(b[j]));
            if seq_lower(b) == inf_text() {
                assert(b.len() == 3);
                if j == 0 {
                    assert(to_lower(b[j]) == 105);
                } else if j == 1 {
                    assert(to_lower(b[j]) == 110);
                } else {
                    assert(to_lower(b[j]) == 102);
                }
            } else if seq_lower(b) == infinity_text() {
                assert(b.len() == 8);
                assert(to_lower(b[j]) == infinity_text()[j]);
                assert(infinity_text()[j] == 105 || infinity_text()[j] == 110 || infinity_text()[
                j] == 102 || infinity_text()[j] == 116 || infinity_text()[j] == 121);
            } else {
                assert(seq_lower(b) == nan_text());
                assert(b.len() == 3);
                if j == 0 {
                    assert(to_lower(b[j]) == 110);
                } else if j == 1 {
                    assert(to_lower(b[j]) == 97);
                } else {
                    assert(to_lower(b[j]) == 110);
                }
            }
            assert(to_lower(b[j]) >= 97);
            assert(b[j] >= 65);
        } else if e == b.len() {
            assert(is_ascii_digit(b[j]) || b[j] == 46);
        } else {
            if j < e {
                assert(b.subrange(0, e)[j] == b[j]);
                assert(is_ascii_digit(b[j]) || b[j] == 46);
            } else if j == e {
                lemma_first_e_hit(b, 0);
                assert(is_e(b[j]));
            } else {
                let tail = b.subrange(e + 1, b.len() as int);
                assert(tail[j - e - 1] == b[j]);
                let tb = strip_sign(tail);
                if tail.len() > 0 && (tail[0] == 43 || tail[0] == 45) {
                    if j > e + 1 {
                        assert(tb[j - e - 2] == tail[j - e - 1]);
                        assert(is_ascii_digit(b[j]));
                    }
                } else {
                    assert(tb[j - e - 1] == tail[j - e - 1]);
                    assert(is_ascii_digit(b[j]));
                }
            }
        }
    }
    assert forall|k: int| 0 <= k < t.len() implies t[k] != 10 && t[k] != 13 by {
        if t.len() > 0 && (t[0] == 43 || t[0] == 45) {
            if k > 0 {
                assert(b[k - 1] == t[k]);
            }
        } else {
            assert(b[k] == t[k]);
        }
    }
}

proof fn lemma_header_segment(s: Seq<u8>, start: int, t: Seq<u8>)
    requires
        0 <= start,
        start + t.len() + 1 <= s.len(),
        s.subrange(start, start + t.len()) == t,
        s[start + t.len()] == 10,
        forall|k: int| 0 <= k < t.len() ==> t[k] != 10,
        t.len() == 0 || t[t.len() - 1] != 13,
    ensures
        find_nl(s, start) == start + t.len(),
        find_nl(s, start) < s.len(),
        strip_cr(s.subrange(start, find_nl(s, start))) == t,
{
    assert forall|k: int| start <= k < start + t.len() implies s[k] != 10 by {
        assert(s.subrange(start, start + t.len())[k - start] == s[k]);
    }
    lemma_find_nl_at(s, start, start + t.len());
}

/// Header round-trip law: encoding well-formed parameters and decoding
/// the text returns the identical values — the four counts exactly, the
/// two float fields as their retained literal text — and consumes the
/// whole header.
pub proof fn lemma_header_round_trip(p: ParamsView)
    requires
        p.wf(),
        is_float_text(p.timestep_text),
        is_float_text(p.interaction_range_text),
    ensures
        header_spec(encode_header_spec(p)) == Ok::<(ParamsView, int), TrajError>(
            (p, encode_header_spec(p).len() as int),
        ),
{
    let s = encode_header_spec(p);
    let t0 = dec_spec(p.particle_count);
    let t1 = dec_spec(p.total_steps);
    let t2 = dec_spec(p.snapshot_interval);
    let t3 = dec_spec(p.dimensions);
    let t4 = p.timestep_text;
    let t5 = p.interaction_range_text;
    lemma_dec_spec_digits(p.particle_count);
    lemma_dec_spec_digits(p.total_steps);
    lemma_dec_spec_digits(p.snapshot_interval);
    lemma_dec_spec_digits(p.dimensions);
    lemma_float_text_bytes(t4);
    lemma_float_text_bytes(t5);
    let l0 = 0int;
    let l1 = l0 + t0.len() + 1;
    let l2 = l1 + t1.len() + 1;
    let l3 = l2 + t2.len() + 1;
    let l4 = l3 + t3.len() + 1;
    let l5 = l4 + t4.len() + 1;
    let l6 = l5 + t5.len() + 1;
    assert(s.len() == l6);
    assert(s.subrange(l0, l0 + t0.len()) =~= t0);
    assert(s[l0 + t0.len()] == 10);
    assert(s.subrange(l1, l1 + t1.len()) =~= t1);
    assert(s[l1 + t1.len()] == 10);
    assert(s.subrange(l2, l2 + t2.len()) =~= t2);
    assert(s[l2 + t2.len()] == 10);
    assert(s.subrange(l3, l3 + t3.len()) =~= t3);
    assert(s[l3 + t3.len()] == 10);
    assert(s.subrange(l4, l4 + t4.len()) =~= t4);
    assert(s[l4 + t4.len()] == 10);
    assert(s.subrange(l5, l5 + t5.len()) =~= t5);
    assert(s[l5 + t5.len()] == 10);
    lemma_header_segment(s, l0, t0);
    lemma_header_segment(s, l1, t1);
    lemma_header_segment(s, l2, t2);
    lemma_header_segment(s, l3, t3);
    lemma_header_segment(s, l4, t4);
    lemma_header_segment(s, l5, t5);
    assert(line_start(s, 0) == l0);
    assert(line_start(s, 1) == l1);
    assert(line_start(s, 2) == l2);
    assert(line_start(s, 3) == l3);
    assert(line_start(s, 4) == l4);
    assert(line_start(s, 5) == l5);
    assert(line_start(s, 6) == l6);
    assert(header_line(s, 0) == t0);
    assert(header_line(s, 1) == t1);
    assert(header_line(s, 2) == t2);
    assert(header_line(s, 3) == t3);
    assert(header_line(s, 4) == t4);
    assert(header_line(s, 5) == t5);
    assert(int_body(t0) == t0);
    assert(int_body(t1) == t1);
    assert(int_body(t2) == t2);
    assert(int_body(t3) == t3);
    assert(usize_line_ok(t0) && int_text_value(t0) == p.particle_count);
    assert(usize_line_ok(t1) && int_text_value(t1) == p.total_steps);
    assert(usize_line_ok(t2) && int_text_value(t2) == p.snapshot_interval);
    assert(usize_line_ok(t3) && int_text_value(t3) == p.dimensions);
    assert(header_spec(s) is Ok);
    let out = header_spec(s)->Ok_0;
    assert(out.0 =~= p);
    assert(out.1 == l6);
}

} // verus!
