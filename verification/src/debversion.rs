//! Debian version numbers: their text form, their order, and the relations
//! that dependency constraints are written with.

use vstd::prelude::*;
use vstd::slice::{slice_subrange, slice_to_vec};
use vstd::string::StringSliceAdditionalSpecFns;
use vstd::utf8::encode_utf8;

verus! {

/// The comparison operators that a versioned dependency may carry.
#[derive(Clone, Copy, Debug, PartialEq, Eq, Structural)]
pub enum VersionRelation {
    StrictlyLess,
    LessOrEqual,
    Equal,
    GreaterOrEqual,
    StrictlyGreater,
}

/// `c` is an ASCII decimal digit.
pub open spec fn is_digit(c: u8) -> bool {
    48 <= c <= 57
}

/// `c` is an ASCII letter.
pub open spec fn is_letter(c: u8) -> bool {
    (65 <= c <= 90) || (97 <= c <= 122)
}

/// The weight of a non-digit byte when two version strings are compared:
/// a tilde sorts before everything, letters sort before all other bytes.
/// Digits weigh nothing, and no other byte does.
pub open spec fn order(c: u8) -> int {
    if is_digit(c) {
        0
    } else if is_letter(c) {
        c as int
    } else if c == 126 {
        -1
    } else {
        c as int + 256
    }
}

/// The weight of the first byte of `s`; the end of the text and a digit weigh 0.
pub open spec fn head_weight(s: Seq<u8>) -> int {
    if s.len() > 0 {
        order(s[0])
    } else {
        0
    }
}

/// The length of the longest prefix of `s` made of digits.
pub open spec fn digit_run_len(s: Seq<u8>) -> nat
    decreases s.len(),
{
    if s.len() > 0 && is_digit(s[0]) {
        1 + digit_run_len(s.drop_first())
    } else {
        0
    }
}

/// The number that the decimal digits `s` write; 0 for no digits.
pub open spec fn decimal_value(s: Seq<u8>) -> nat
    decreases s.len(),
{
    if s.len() == 0 {
        0
    } else {
        decimal_value(s.drop_last()) * 10 + (s.last() - 48) as nat
    }
}

/// -1, 0 or 1 as `x` is below, equal to or above `y`.
pub open spec fn sign_of_difference(x: int, y: int) -> int {
    if x < y {
        -1
    } else if x == y {
        0
    } else {
        1
    }
}

/// The order of two version parts (an upstream version or a revision):
/// -1, 0 or 1. The texts are read as alternating runs of non-digits and
/// digits. Non-digit runs are compared byte by byte through `order`, the end
/// of a run weighing 0; digit runs are compared as numbers, an absent run
/// being 0.
pub open spec fn compare_text(a: Seq<u8>, b: Seq<u8>) -> int
    decreases a.len() + b.len(),
    via compare_text_decreases
{
    let wa = head_weight(a);
    let wb = head_weight(b);
    if wa != wb {
        sign_of_difference(wa, wb)
    } else if wa != 0 {
        compare_text(a.drop_first(), b.drop_first())
    } else if a.len() == 0 && b.len() == 0 {
        0
    } else {
        let la = digit_run_len(a) as int;
        let lb = digit_run_len(b) as int;
        let na = decimal_value(a.take(la)) as int;
        let nb = decimal_value(b.take(lb)) as int;
        if na != nb {
            sign_of_difference(na, nb)
        } else {
            compare_text(a.skip(la), b.skip(lb))
        }
    }
}

#[via_fn]
proof fn compare_text_decreases(a: Seq<u8>, b: Seq<u8>) {
    lemma_digit_run_bounds(a);
    lemma_digit_run_bounds(b);
}

/// A digit run lies within its text, holds digits only, ends where the text
/// ends or a non-digit stands, and is not empty where the text starts with a
/// digit.
pub proof fn lemma_digit_run_bounds(s: Seq<u8>)
    ensures
        digit_run_len(s) <= s.len(),
        forall|i: int| 0 <= i < digit_run_len(s) ==> is_digit(#[trigger] s[i]),
        digit_run_len(s) < s.len() ==> !is_digit(s[digit_run_len(s) as int]),
        s.len() > 0 && is_digit(s[0]) ==> digit_run_len(s) >= 1,
    decreases s.len(),
{
    if s.len() > 0 && is_digit(s[0]) {
        let t = s.drop_first();
        lemma_digit_run_bounds(t);
        assert forall|i: int| 0 <= i < digit_run_len(s) implies is_digit(#[trigger] s[i]) by {
            if i > 0 {
                assert(s[i] == t[i - 1]);
            }
        }
        if digit_run_len(s) < s.len() {
            assert(s[digit_run_len(s) as int] == t[digit_run_len(t) as int]);
        }
    }
}

/// Ten to the power `n`.
pub open spec fn pow10(n: nat) -> nat
    decreases n,
{
    if n == 0 {
        1
    } else {
        10 * pow10((n - 1) as nat)
    }
}

/// Every byte of `s` is a digit.
pub open spec fn all_digits(s: Seq<u8>) -> bool {
    forall|i: int| 0 <= i < s.len() ==> is_digit(#[trigger] s[i])
}

proof fn lemma_pow10_monotone(m: nat, n: nat)
    requires
        m <= n,
    ensures
        pow10(m) <= pow10(n),
        pow10(m) >= 1,
    decreases n,
{
    if n == 0 {
    } else if m < n {
        lemma_pow10_monotone(m, (n - 1) as nat);
    } else {
        lemma_pow10_monotone((m - 1) as nat, (n - 1) as nat);
    }
}

/// A leading zero does not change the number that digits write.
proof fn lemma_leading_zero(s: Seq<u8>)
    requires
        s.len() > 0,
        s[0] == 48,
    ensures
        decimal_value(s) == decimal_value(s.drop_first()),
    decreases s.len(),
{
    let t = s.drop_first();
    if s.len() == 1 {
        assert(decimal_value(s.drop_last()) == 0);
        assert(decimal_value(t) == 0);
    } else {
        lemma_leading_zero(s.drop_last());
        assert(s.drop_last().drop_first() =~= t.drop_last());
        assert(t.last() == s.last());
        assert(decimal_value(t) == decimal_value(t.drop_last()) * 10 + (t.last() - 48) as nat);
    }
}

/// The number written by `n` digits is below ten to the `n`, and not below
/// ten to the `n - 1` where the first digit is not zero.
proof fn lemma_value_bounds(s: Seq<u8>)
    requires
        all_digits(s),
    ensures
        decimal_value(s) < pow10(s.len()),
        s.len() > 0 && s[0] != 48 ==> decimal_value(s) >= pow10((s.len() - 1) as nat),
    decreases s.len(),
{
    if s.len() > 0 {
        let t = s.drop_last();
        assert(all_digits(t)) by {
            assert forall|i: int| 0 <= i < t.len() implies is_digit(#[trigger] t[i]) by {
                assert(t[i] == s[i]);
            }
        }
        lemma_value_bounds(t);
        assert(is_digit(s[s.len() - 1]));
        if s.len() > 1 {
            assert(t[0] == s[0]);
        }
    }
}

/// Of two digit runs without leading zeros, the longer writes the greater
/// number.
proof fn lemma_longer_is_greater(a: Seq<u8>, b: Seq<u8>)
    requires
        all_digits(a),
        all_digits(b),
        a.len() > b.len(),
        a[0] != 48,
    ensures
        decimal_value(a) > decimal_value(b),
{
    lemma_value_bounds(a);
    lemma_value_bounds(b);
    lemma_pow10_monotone(b.len(), (a.len() - 1) as nat);
}

/// Reading one more digit multiplies the number read so far by ten and adds
/// the digit.
proof fn lemma_value_step(s: Seq<u8>, k: int)
    requires
        0 <= k < s.len(),
    ensures
        decimal_value(s.take(k + 1)) == decimal_value(s.take(k)) * 10 + (s[k] - 48) as nat,
{
    assert(s.take(k + 1).drop_last() =~= s.take(k));
}

/// Reading one more digit of two runs keeps an order already decided, and
/// decides it by the new digits where the runs were equal so far.
proof fn lemma_sign_step(x: Seq<u8>, y: Seq<u8>, k: int)
    requires
        0 <= k < x.len(),
        k < y.len(),
        is_digit(x[k]),
        is_digit(y[k]),
    ensures
        sign_of_difference(
            decimal_value(x.take(k + 1)) as int,
            decimal_value(y.take(k + 1)) as int,
        ) == if decimal_value(x.take(k)) != decimal_value(y.take(k)) {
            sign_of_difference(decimal_value(x.take(k)) as int, decimal_value(y.take(k)) as int)
        } else {
            sign_of_difference(x[k] as int, y[k] as int)
        },
{
    lemma_value_step(x, k);
    lemma_value_step(y, k);
}

fn is_digit_byte(c: u8) -> (r: bool)
    ensures
        r == is_digit(c),
{
    c >= 48 && c <= 57
}

fn weight_of(c: u8) -> (r: i32)
    ensures
        r == order(c),
{
    if c >= 48 && c <= 57 {
        0
    } else if (c >= 65 && c <= 90) || (c >= 97 && c <= 122) {
        c as i32
    } else if c == 126 {
        -1
    } else {
        c as i32 + 256
    }
}

/// The index just behind the digit run that starts at `i`.
fn digit_run_end(a: &Vec<u8>, i: usize) -> (end: usize)
    requires
        i <= a.len(),
    ensures
        i <= end <= a.len(),
        end == i + digit_run_len(a@.skip(i as int)),
{
    let mut k: usize = i;
    while k < a.len() && is_digit_byte(a[k])
        invariant
            i <= k <= a.len(),
            digit_run_len(a@.skip(i as int)) == (k - i) + digit_run_len(a@.skip(k as int)),
        decreases a.len() - k,
    {
        assert(a@.skip(k as int).drop_first() =~= a@.skip(k + 1));
        k += 1;
    }
    k
}

/// The index of the first digit from `i` on that is not a zero, or `end`.
fn skip_zeros(a: &Vec<u8>, i: usize, end: usize) -> (start: usize)
    requires
        i <= end <= a.len(),
    ensures
        i <= start <= end,
        start < end ==> a[start as int] != 48,
        decimal_value(a@.subrange(i as int, end as int)) == decimal_value(
            a@.subrange(start as int, end as int),
        ),
{
    let mut k: usize = i;
    while k < end && a[k] == 48
        invariant
            i <= k <= end <= a.len(),
            decimal_value(a@.subrange(i as int, end as int)) == decimal_value(
                a@.subrange(k as int, end as int),
            ),
        decreases end - k,
    {
        proof {
            let s = a@.subrange(k as int, end as int);
            lemma_leading_zero(s);
            assert(s.drop_first() =~= a@.subrange(k + 1, end as int));
        }
        k += 1;
    }
    k
}

/// Compares the numbers written by two digit runs.
fn compare_digit_runs(a: &Vec<u8>, i: usize, ea: usize, b: &Vec<u8>, j: usize, eb: usize) -> (r:
    i8)
    requires
        i <= ea <= a.len(),
        j <= eb <= b.len(),
        all_digits(a@.subrange(i as int, ea as int)),
        all_digits(b@.subrange(j as int, eb as int)),
    ensures
        r == sign_of_difference(
            decimal_value(a@.subrange(i as int, ea as int)) as int,
            decimal_value(b@.subrange(j as int, eb as int)) as int,
        ),
{
    let sa = skip_zeros(a, i, ea);
    let sb = skip_zeros(b, j, eb);
    let ghost x = a@.subrange(sa as int, ea as int);
    let ghost y = b@.subrange(sb as int, eb as int);
    proof {
        assert forall|k: int| 0 <= k < x.len() implies is_digit(#[trigger] x[k]) by {
            assert(x[k] == a@.subrange(i as int, ea as int)[k + sa - i]);
        }
        assert forall|k: int| 0 <= k < y.len() implies is_digit(#[trigger] y[k]) by {
            assert(y[k] == b@.subrange(j as int, eb as int)[k + sb - j]);
        }
    }
    let la = ea - sa;
    let lb = eb - sb;
    if la > lb {
        proof {
            lemma_longer_is_greater(x, y);
        }
        return 1;
    }
    if la < lb {
        proof {
            lemma_longer_is_greater(y, x);
        }
        return -1;
    }
    let mut sign: i8 = 0;
    let mut k: usize = 0;
    while k < la
        invariant
            0 <= k <= la,
            la == ea - sa,
            la == eb - sb,
            sa <= ea <= a.len(),
            sb <= eb <= b.len(),
            x == a@.subrange(sa as int, ea as int),
            y == b@.subrange(sb as int, eb as int),
            all_digits(x),
            all_digits(y),
            sign == sign_of_difference(
                decimal_value(x.take(k as int)) as int,
                decimal_value(y.take(k as int)) as int,
            ),
        decreases la - k,
    {
        let da = a[sa + k];
        let db = b[sb + k];
        proof {
            assert(is_digit(x[k as int]));
            assert(is_digit(y[k as int]));
            lemma_sign_step(x, y, k as int);
        }
        if sign == 0 {
            if da < db {
                sign = -1;
            } else if da > db {
                sign = 1;
            }
        }
        k += 1;
    }
    proof {
        assert(x.take(la as int) =~= x);
        assert(y.take(la as int) =~= y);
    }
    sign
}

/// Compares two version parts by the rules of `compare_text`.
pub fn compare_parts(a: &Vec<u8>, b: &Vec<u8>) -> (r: i8)
    ensures
        r == compare_text(a@, b@),
{
    let mut i: usize = 0;
    let mut j: usize = 0;
    assert(a@.skip(0) =~= a@);
    assert(b@.skip(0) =~= b@);
    loop
        invariant
            i <= a.len(),
            j <= b.len(),
            compare_text(a@, b@) == compare_text(a@.skip(i as int), b@.skip(j as int)),
        decreases (a.len() - i) + (b.len() - j),
    {
        let ghost x = a@.skip(i as int);
        let ghost y = b@.skip(j as int);
        let wa: i32 = if i < a.len() {
            weight_of(a[i])
        } else {
            0
        };
        let wb: i32 = if j < b.len() {
            weight_of(b[j])
        } else {
            0
        };
        assert(wa == head_weight(x));
        assert(wb == head_weight(y));
        if wa < wb {
            return -1;
        }
        if wa > wb {
            return 1;
        }
        if wa != 0 {
            assert(x.drop_first() =~= a@.skip(i + 1));
            assert(y.drop_first() =~= b@.skip(j + 1));
            i += 1;
            j += 1;
        } else if i == a.len() && j == b.len() {
            return 0;
        } else {
            let ea = digit_run_end(a, i);
            let eb = digit_run_end(b, j);
            proof {
                lemma_digit_run_bounds(x);
                lemma_digit_run_bounds(y);
                assert(x.take(ea - i) =~= a@.subrange(i as int, ea as int));
                assert(y.take(eb - j) =~= b@.subrange(j as int, eb as int));
                assert(x.skip(ea - i) =~= a@.skip(ea as int));
                assert(y.skip(eb - j) =~= b@.skip(eb as int));
            }
            let r = compare_digit_runs(a, i, ea, b, j, eb);
            if r != 0 {
                return r;
            }
            i = ea;
            j = eb;
        }
    }
}

/// What a version number is: its text, and the parts that the text is taken
/// apart into, each as bytes: the epoch, the upstream version and the Debian
/// revision. An absent epoch or revision is empty. Only the parts count in
/// the order of versions.
pub struct VersionModel {
    pub text: Seq<char>,
    pub epoch: Seq<u8>,
    pub upstream: Seq<u8>,
    pub revision: Seq<u8>,
}

/// The order of two versions: -1, 0 or 1. Epochs decide first, then the
/// upstream versions, then the revisions.
pub open spec fn version_order(a: VersionModel, b: VersionModel) -> int {
    let e = compare_text(a.epoch, b.epoch);
    let u = compare_text(a.upstream, b.upstream);
    if e != 0 {
        e
    } else if u != 0 {
        u
    } else {
        compare_text(a.revision, b.revision)
    }
}

/// Whether `a op b` holds in the order of versions.
pub open spec fn relation_holds(op: VersionRelation, a: VersionModel, b: VersionModel) -> bool {
    match op {
        VersionRelation::StrictlyLess => version_order(a, b) < 0,
        VersionRelation::LessOrEqual => version_order(a, b) <= 0,
        VersionRelation::Equal => version_order(a, b) == 0,
        VersionRelation::GreaterOrEqual => version_order(a, b) >= 0,
        VersionRelation::StrictlyGreater => version_order(a, b) > 0,
    }
}

/// The index of the first `c` in `s`, or the length of `s` where there is none.
pub open spec fn first_index(s: Seq<u8>, c: u8) -> int
    decreases s.len(),
{
    if s.len() == 0 || s[0] == c {
        0
    } else {
        1 + first_index(s.drop_first(), c)
    }
}

/// The index of the last `c` in `s`, or -1 where there is none.
pub open spec fn last_index(s: Seq<u8>, c: u8) -> int
    decreases s.len(),
{
    if s.len() == 0 {
        -1
    } else if s.last() == c {
        s.len() - 1
    } else {
        last_index(s.drop_last(), c)
    }
}

/// A byte that may stand in a revision: a letter, a digit, `+`, `.` or `~`.
pub open spec fn is_part_byte(c: u8) -> bool {
    is_digit(c) || is_letter(c) || c == 43 || c == 46 || c == 126
}

/// Every byte of `s` may stand in a revision.
pub open spec fn all_part_bytes(s: Seq<u8>) -> bool {
    forall|i: int| 0 <= i < s.len() ==> is_part_byte(#[trigger] s[i])
}

/// Every byte of `s` may stand in an upstream version, which may hold
/// hyphens too.
pub open spec fn all_upstream_bytes(s: Seq<u8>) -> bool {
    forall|i: int| 0 <= i < s.len() ==> is_part_byte(#[trigger] s[i]) || s[i] == 45
}

/// What stands behind the epoch and its colon.
pub open spec fn after_epoch(s: Seq<u8>) -> Seq<u8> {
    let k = first_index(s, 58);
    if k < s.len() {
        s.skip(k + 1)
    } else {
        s
    }
}

/// The epoch of the text `[epoch:]upstream[-revision]`: what stands before
/// its first colon.
pub open spec fn epoch_of(s: Seq<u8>) -> Seq<u8> {
    let k = first_index(s, 58);
    if k < s.len() {
        s.take(k)
    } else {
        Seq::empty()
    }
}

/// The upstream version of the text: what stands behind the epoch and before
/// the last hyphen.
pub open spec fn upstream_of(s: Seq<u8>) -> Seq<u8> {
    let rest = after_epoch(s);
    let m = last_index(rest, 45);
    if m >= 0 {
        rest.take(m)
    } else {
        rest
    }
}

/// The revision of the text: what stands behind the last hyphen that follows
/// the epoch.
pub open spec fn revision_of(s: Seq<u8>) -> Seq<u8> {
    let rest = after_epoch(s);
    let m = last_index(rest, 45);
    if m >= 0 {
        rest.skip(m + 1)
    } else {
        Seq::empty()
    }
}

/// Whether `s` is the text of a version: an epoch, where there is a colon, is
/// a number; the upstream version is not empty; a revision, where there is a
/// hyphen, is not empty; and no part holds a byte that it may not.
pub open spec fn is_version_text(s: Seq<u8>) -> bool {
    &&& first_index(s, 58) < s.len() ==> epoch_of(s).len() > 0
    &&& all_digits(epoch_of(s))
    &&& upstream_of(s).len() > 0
    &&& all_upstream_bytes(upstream_of(s))
    &&& last_index(after_epoch(s), 45) >= 0 ==> revision_of(s).len() > 0
    &&& all_part_bytes(revision_of(s))
}

/// The bytes of a text.
pub open spec fn text_bytes(t: Seq<char>) -> Seq<u8> {
    encode_utf8(t)
}

/// The version that the text `t` writes, if it writes one.
pub open spec fn parse_version(t: Seq<char>) -> Option<VersionModel> {
    let s = text_bytes(t);
    if is_version_text(s) {
        Some(
            VersionModel {
                text: t,
                epoch: epoch_of(s),
                upstream: upstream_of(s),
                revision: revision_of(s),
            },
        )
    } else {
        None
    }
}

fn find_first(bytes: &[u8], c: u8) -> (k: usize)
    ensures
        k == first_index(bytes@, c),
        k <= bytes@.len(),
{
    let mut k: usize = 0;
    assert(bytes@.skip(0) =~= bytes@);
    while k < bytes.len() && bytes[k] != c
        invariant
            k <= bytes@.len(),
            first_index(bytes@, c) == k + first_index(bytes@.skip(k as int), c),
        decreases bytes@.len() - k,
    {
        assert(bytes@.skip(k as int).drop_first() =~= bytes@.skip(k + 1));
        k += 1;
    }
    k
}

fn find_last(bytes: &[u8], c: u8) -> (r: Option<usize>)
    ensures
        match r {
            Some(m) => m == last_index(bytes@, c) && m < bytes@.len(),
            None => last_index(bytes@, c) == -1,
        },
{
    let mut k: usize = bytes.len();
    assert(bytes@.take(k as int) =~= bytes@);
    while k > 0
        invariant
            k <= bytes@.len(),
            last_index(bytes@, c) == last_index(bytes@.take(k as int), c),
        decreases k,
    {
        if bytes[k - 1] == c {
            return Some(k - 1);
        }
        assert(bytes@.take(k as int).drop_last() =~= bytes@.take(k - 1));
        k -= 1;
    }
    None
}

fn is_part(c: u8) -> (r: bool)
    ensures
        r == is_part_byte(c),
{
    (c >= 48 && c <= 57) || (c >= 65 && c <= 90) || (c >= 97 && c <= 122) || c == 43 || c == 46
        || c == 126
}

fn holds_digits_only(bytes: &[u8]) -> (r: bool)
    ensures
        r == all_digits(bytes@),
{
    let mut k: usize = 0;
    while k < bytes.len()
        invariant
            k <= bytes@.len(),
            forall|i: int| 0 <= i < k ==> is_digit(#[trigger] bytes@[i]),
        decreases bytes@.len() - k,
    {
        if !is_digit_byte(bytes[k]) {
            return false;
        }
        k += 1;
    }
    true
}

fn holds_part_bytes_only(bytes: &[u8], hyphen_too: bool) -> (r: bool)
    ensures
        r == if hyphen_too {
            all_upstream_bytes(bytes@)
        } else {
            all_part_bytes(bytes@)
        },
{
    let mut k: usize = 0;
    while k < bytes.len()
        invariant
            k <= bytes@.len(),
            forall|i: int|
                0 <= i < k ==> is_part_byte(#[trigger] bytes@[i]) || (hyphen_too && bytes@[i]
                    == 45),
        decreases bytes@.len() - k,
    {
        let c = bytes[k];
        if !(is_part(c) || (hyphen_too && c == 45)) {
            return false;
        }
        k += 1;
    }
    true
}

/// A Debian version number, kept with the text that it was read from.
#[derive(Debug)]
pub struct DebianVersionNum {
    text: String,
    epoch: Vec<u8>,
    upstream: Vec<u8>,
    debian: Vec<u8>,
}

impl View for DebianVersionNum {
    type V = VersionModel;

    closed spec fn view(&self) -> VersionModel {
        VersionModel {
            text: self.text@,
            epoch: self.epoch@,
            upstream: self.upstream@,
            revision: self.debian@,
        }
    }
}

impl DeepView for DebianVersionNum {
    type V = VersionModel;

    open spec fn deep_view(&self) -> VersionModel {
        self.view()
    }
}

impl DebianVersionNum {
    /// The parts are those that the text writes.
    #[verifier::type_invariant]
    spec fn parts_match_text(&self) -> bool {
        parse_version(self.text@) == Some(self@)
    }

    /// Reads a version from its text; `None` where the text writes none.
    pub fn parse(s: &str) -> (r: Option<DebianVersionNum>)
        ensures
            match r {
                Some(v) => parse_version(s@) == Some(v@),
                None => parse_version(s@) is None,
            },
    {
        let bytes = s.as_bytes();
        let n = bytes.len();
        let k = find_first(bytes, 58);
        let epoch = if k < n {
            slice_subrange(bytes, 0, k)
        } else {
            slice_subrange(bytes, 0, 0)
        };
        let rest = if k < n {
            slice_subrange(bytes, k + 1, n)
        } else {
            bytes
        };
        let m = find_last(rest, 45);
        let rest_len = rest.len();
        let upstream = match m {
            Some(m) => slice_subrange(rest, 0, m),
            None => rest,
        };
        let revision = match m {
            Some(m) => slice_subrange(rest, m + 1, rest_len),
            None => slice_subrange(rest, 0, 0),
        };
        proof {
            let b = s.spec_bytes();
            assert(rest@ =~= after_epoch(b));
            assert(epoch@ =~= epoch_of(b));
            assert(upstream@ =~= upstream_of(b));
            assert(revision@ =~= revision_of(b));
        }
        let epoch_ok = (k >= n || epoch.len() > 0) && holds_digits_only(epoch);
        let upstream_ok = upstream.len() > 0 && holds_part_bytes_only(upstream, true);
        let revision_ok = (m.is_none() || revision.len() > 0) && holds_part_bytes_only(
            revision,
            false,
        );
        if epoch_ok && upstream_ok && revision_ok {
            Some(
                DebianVersionNum {
                    text: s.to_owned(),
                    epoch: slice_to_vec(epoch),
                    upstream: slice_to_vec(upstream),
                    debian: slice_to_vec(revision),
                },
            )
        } else {
            None
        }
    }

    /// The text that the version was read from. Read again, it gives the
    /// same version.
    pub fn to_string(&self) -> (r: String)
        ensures
            r@ == self@.text,
            parse_version(r@) == Some(self@),
    {
        proof {
            use_type_invariant(self);
        }
        self.text.clone()
    }

    /// The order of `self` and `other`: -1, 0 or 1.
    pub fn compare(&self, other: &DebianVersionNum) -> (r: i8)
        ensures
            r == version_order(self@, other@),
    {
        let e = compare_parts(&self.epoch, &other.epoch);
        if e != 0 {
            return e;
        }
        let u = compare_parts(&self.upstream, &other.upstream);
        if u != 0 {
            return u;
        }
        compare_parts(&self.debian, &other.debian)
    }
}

impl Clone for DebianVersionNum {
    fn clone(&self) -> (r: Self)
        ensures
            r@ == self@,
    {
        proof {
            use_type_invariant(self);
        }
        DebianVersionNum {
            text: self.text.clone(),
            epoch: self.epoch.clone(),
            upstream: self.upstream.clone(),
            debian: self.debian.clone(),
        }
    }
}

/// Whether `v1 op v2` holds.
pub fn compare_with_op(op: &VersionRelation, v1: &DebianVersionNum, v2: &DebianVersionNum) -> (r:
    bool)
    ensures
        r == relation_holds(*op, v1@, v2@),
{
    let c = v1.compare(v2);
    match op {
        VersionRelation::StrictlyLess => c < 0,
        VersionRelation::LessOrEqual => c <= 0,
        VersionRelation::Equal => c == 0,
        VersionRelation::GreaterOrEqual => c >= 0,
        VersionRelation::StrictlyGreater => c > 0,
    }
}

/// Comparing two version parts the other way round gives the opposite
/// result, and the result is -1, 0 or 1.
pub proof fn lemma_compare_text_antisymmetric(a: Seq<u8>, b: Seq<u8>)
    ensures
        compare_text(a, b) == -compare_text(b, a),
        -1 <= compare_text(a, b) <= 1,
    decreases a.len() + b.len(),
{
    let wa = head_weight(a);
    let wb = head_weight(b);
    if wa != wb {
    } else if wa != 0 {
        lemma_compare_text_antisymmetric(a.drop_first(), b.drop_first());
    } else if a.len() == 0 && b.len() == 0 {
    } else {
        lemma_digit_run_bounds(a);
        lemma_digit_run_bounds(b);
        let la = digit_run_len(a) as int;
        let lb = digit_run_len(b) as int;
        lemma_compare_text_antisymmetric(a.skip(la), b.skip(lb));
    }
}

/// A version part is equal to itself in the order.
pub proof fn lemma_compare_text_reflexive(a: Seq<u8>)
    ensures
        compare_text(a, a) == 0,
{
    lemma_compare_text_antisymmetric(a, a);
}

/// The order of version parts is transitive: from `a <= b` and `b <= c`
/// follows `a <= c`, and `a < c` where one of the two is strict.
pub proof fn lemma_compare_text_transitive(a: Seq<u8>, b: Seq<u8>, c: Seq<u8>)
    requires
        compare_text(a, b) <= 0,
        compare_text(b, c) <= 0,
    ensures
        compare_text(a, c) <= 0,
        compare_text(a, b) < 0 || compare_text(b, c) < 0 ==> compare_text(a, c) < 0,
    decreases a.len() + b.len() + c.len(),
{
    let wa = head_weight(a);
    let wb = head_weight(b);
    let wc = head_weight(c);
    if wa != wb || wb != wc {
    } else if wa != 0 {
        lemma_compare_text_transitive(a.drop_first(), b.drop_first(), c.drop_first());
    } else if a.len() == 0 && b.len() == 0 && c.len() == 0 {
    } else {
        lemma_digit_run_bounds(a);
        lemma_digit_run_bounds(b);
        lemma_digit_run_bounds(c);
        let la = digit_run_len(a) as int;
        let lb = digit_run_len(b) as int;
        let lc = digit_run_len(c) as int;
        let na = decimal_value(a.take(la));
        let nb = decimal_value(b.take(lb));
        let nc = decimal_value(c.take(lc));
        assert(a.len() == 0 ==> na == 0);
        assert(b.len() == 0 ==> nb == 0);
        assert(c.len() == 0 ==> nc == 0);
        if na == nb && nb == nc {
            let ra = a.skip(la);
            let rb = b.skip(lb);
            let rc = c.skip(lc);
            assert(a.len() == 0 && b.len() == 0 ==> compare_text(ra, rb) == 0);
            assert(b.len() == 0 && c.len() == 0 ==> compare_text(rb, rc) == 0);
            lemma_compare_text_transitive(ra, rb, rc);
            assert(a.len() == 0 && c.len() == 0 ==> compare_text(ra, rc) == 0);
        }
    }
}

/// Comparing two versions the other way round gives the opposite result,
/// and the result is -1, 0 or 1.
pub proof fn lemma_version_order_antisymmetric(a: VersionModel, b: VersionModel)
    ensures
        version_order(a, b) == -version_order(b, a),
        -1 <= version_order(a, b) <= 1,
{
    lemma_compare_text_antisymmetric(a.epoch, b.epoch);
    lemma_compare_text_antisymmetric(a.upstream, b.upstream);
    lemma_compare_text_antisymmetric(a.revision, b.revision);
}

/// A version is equal to itself in the order.
pub proof fn lemma_version_order_reflexive(a: VersionModel)
    ensures
        version_order(a, a) == 0,
{
    lemma_version_order_antisymmetric(a, a);
}

/// The order of versions is transitive: from `a <= b` and `b <= c` follows
/// `a <= c`, and `a < c` where one of the two is strict.
pub proof fn lemma_version_order_transitive(a: VersionModel, b: VersionModel, c: VersionModel)
    requires
        version_order(a, b) <= 0,
        version_order(b, c) <= 0,
    ensures
        version_order(a, c) <= 0,
        version_order(a, b) < 0 || version_order(b, c) < 0 ==> version_order(a, c) < 0,
{
    lemma_compare_text_antisymmetric(a.epoch, b.epoch);
    lemma_compare_text_antisymmetric(b.epoch, c.epoch);
    lemma_compare_text_antisymmetric(a.upstream, b.upstream);
    lemma_compare_text_antisymmetric(b.upstream, c.upstream);
    lemma_compare_text_transitive(a.epoch, b.epoch, c.epoch);
    if compare_text(a.epoch, b.epoch) == 0 && compare_text(b.epoch, c.epoch) == 0 {
        lemma_compare_text_transitive(a.upstream, b.upstream, c.upstream);
        if compare_text(a.upstream, b.upstream) == 0 && compare_text(b.upstream, c.upstream)
            == 0 {
            lemma_compare_text_transitive(a.revision, b.revision, c.revision);
        }
    }
}

} // verus!
