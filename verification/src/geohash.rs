//! GeoHash cells: the base32 alphabet, the grid model behind a hash, and the
//! neighbouring cells used to look subscriptions up around an epicentre.
//!
//! A hash of `n` digits names one cell of a grid with `lon_span(n)` columns
//! and `lat_span(n)` rows. Digit `i` carries five bits that alternate between
//! longitude and latitude, starting with longitude; so a digit at an even
//! position splits the current cell into 8 columns and 4 rows, and one at an
//! odd position into 4 columns and 8 rows.
use vstd::prelude::*;
use vstd::string::*;
use crate::text::{push_char, texts_of};

verus! {

/// Longest hash that the library accepts.
pub const MAX_PRECISION: usize = 12;

// ------------------------------------------------------------------
// The alphabet: "0123456789bcdefghjkmnpqrstuvwxyz"
// ------------------------------------------------------------------

/// Code point of the digit with value `v` (0..32).
pub open spec fn digit_code(v: int) -> int {
    if v < 10 {
        48 + v
    } else if v < 17 {
        88 + v
    } else if v < 19 {
        89 + v
    } else if v < 21 {
        90 + v
    } else {
        91 + v
    }
}

/// The character of the digit with value `v` (0..32).
pub open spec fn digit_char(v: int) -> char {
    digit_code(v) as char
}

/// The value of a base32 character, `None` for a character outside the alphabet.
pub open spec fn char_digit(c: char) -> Option<int> {
    let u = c as int;
    if 48 <= u <= 57 {
        Some(u - 48)
    } else if 98 <= u <= 104 {
        Some(u - 88)
    } else if 106 <= u <= 107 {
        Some(u - 89)
    } else if 109 <= u <= 110 {
        Some(u - 90)
    } else if 112 <= u <= 122 {
        Some(u - 91)
    } else {
        None
    }
}

/// A well-formed hash: 1 to 12 characters, each one of the alphabet.
pub open spec fn is_geohash(s: Seq<char>) -> bool {
    &&& 1 <= s.len() <= MAX_PRECISION
    &&& forall|i: int| 0 <= i < s.len() ==> (#[trigger] char_digit(s[i])) is Some
}

/// Digit values of a hash.
pub open spec fn digits(s: Seq<char>) -> Seq<int> {
    Seq::new(s.len(), |i: int| char_digit(s[i]).unwrap())
}

/// Text of a sequence of digit values.
pub open spec fn digits_text(d: Seq<int>) -> Seq<char> {
    Seq::new(d.len(), |i: int| digit_char(d[i]))
}

/// Every entry is a digit value.
pub open spec fn digits_in_range(d: Seq<int>) -> bool {
    forall|i: int| 0 <= i < d.len() ==> 0 <= #[trigger] d[i] < 32
}

/// The exec digit buffer as values.
pub open spec fn digit_ints(v: Seq<u8>) -> Seq<int> {
    Seq::new(v.len(), |i: int| v[i] as int)
}

// ------------------------------------------------------------------
// Splitting one digit into its column part and its row part
// ------------------------------------------------------------------

/// Bits 4, 2 and 0 of a digit: the three-bit part.
pub open spec fn digit_high(v: int) -> int {
    (v / 16) * 4 + ((v / 4) % 2) * 2 + v % 2
}

/// Bits 3 and 1 of a digit: the two-bit part.
pub open spec fn digit_low(v: int) -> int {
    ((v / 8) % 2) * 2 + (v / 2) % 2
}

/// The digit whose three-bit part is `h` and two-bit part is `l`.
pub open spec fn digit_join(h: int, l: int) -> int {
    (h / 4) * 16 + (l / 2) * 8 + ((h / 2) % 2) * 4 + (l % 2) * 2 + h % 2
}

// ------------------------------------------------------------------
// The grid
// ------------------------------------------------------------------

/// Number of columns of the grid of hashes of length `n`.
pub open spec fn lon_span(n: nat) -> nat
    decreases n,
{
    if n == 0 {
        1
    } else if (n - 1) % 2 == 0 {
        lon_span((n - 1) as nat) * 8
    } else {
        lon_span((n - 1) as nat) * 4
    }
}

/// Number of rows of the grid of hashes of length `n`.
pub open spec fn lat_span(n: nat) -> nat
    decreases n,
{
    if n == 0 {
        1
    } else if (n - 1) % 2 == 0 {
        lat_span((n - 1) as nat) * 4
    } else {
        lat_span((n - 1) as nat) * 8
    }
}

/// Column and row of the cell that a digit sequence names.
pub open spec fn digits_cell(d: Seq<int>) -> (int, int)
    decreases d.len(),
{
    if d.len() == 0 {
        (0, 0)
    } else {
        let prefix = digits_cell(d.drop_last());
        let v = d.last();
        if (d.len() - 1) % 2 == 0 {
            (prefix.0 * 8 + digit_high(v), prefix.1 * 4 + digit_low(v))
        } else {
            (prefix.0 * 4 + digit_low(v), prefix.1 * 8 + digit_high(v))
        }
    }
}

/// Digits of the cell in column `x` and row `y` of the grid of length `n`.
pub open spec fn cell_digits(x: int, y: int, n: nat) -> Seq<int>
    decreases n,
{
    if n == 0 {
        Seq::empty()
    } else if (n - 1) % 2 == 0 {
        cell_digits(x / 8, y / 4, (n - 1) as nat).push(digit_join(x % 8, y % 4))
    } else {
        cell_digits(x / 4, y / 8, (n - 1) as nat).push(digit_join(y % 8, x % 4))
    }
}

/// Column and row of the cell that a hash names.
pub open spec fn cell_of(s: Seq<char>) -> (int, int) {
    digits_cell(digits(s))
}

/// The hash of length `n` of the cell in column `x` and row `y`.
pub open spec fn hash_at(x: int, y: int, n: nat) -> Seq<char> {
    digits_text(cell_digits(x, y, n))
}

/// One step of `delta` (-1, 0 or 1) along an axis of `span` cells that wraps
/// around at both ends.
pub open spec fn wrap_step(v: int, delta: int, span: int) -> int {
    if v + delta >= span {
        v + delta - span
    } else if v + delta < 0 {
        v + delta + span
    } else {
        v + delta
    }
}

/// The cell `dx` columns east and `dy` rows north of the cell of `s`.
pub open spec fn block_hash(s: Seq<char>, dx: int, dy: int) -> Seq<char> {
    let n = s.len();
    let c = cell_of(s);
    hash_at(wrap_step(c.0, dx, lon_span(n) as int), wrap_step(c.1, dy, lat_span(n) as int), n)
}

/// A compass direction on the grid.
#[derive(Debug, Clone, Copy, PartialEq, Eq)]
pub enum Direction {
    North,
    South,
    East,
    West,
}

/// Column and row step of a direction.
pub open spec fn direction_step(d: Direction) -> (int, int) {
    match d {
        Direction::North => (0, 1),
        Direction::South => (0, -1),
        Direction::East => (1, 0),
        Direction::West => (-1, 0),
    }
}

/// The opposite direction.
pub open spec fn opposite(d: Direction) -> Direction {
    match d {
        Direction::North => Direction::South,
        Direction::South => Direction::North,
        Direction::East => Direction::West,
        Direction::West => Direction::East,
    }
}

/// The hash of the cell next to the cell of `s` in direction `d`.
pub open spec fn neighbor_hash(s: Seq<char>, d: Direction) -> Seq<char> {
    block_hash(s, direction_step(d).0, direction_step(d).1)
}

/// The nine cells around a hash, in the order the list is first built:
/// centre, north, south, east, west, north-east, north-west, south-east,
/// south-west.
pub open spec fn block_offset(k: int) -> (int, int) {
    if k == 0 {
        (0, 0)
    } else if k == 1 {
        (0, 1)
    } else if k == 2 {
        (0, -1)
    } else if k == 3 {
        (1, 0)
    } else if k == 4 {
        (-1, 0)
    } else if k == 5 {
        (1, 1)
    } else if k == 6 {
        (-1, 1)
    } else if k == 7 {
        (1, -1)
    } else {
        (-1, -1)
    }
}

/// An offset of the 3 x 3 block around a cell.
pub open spec fn in_block(dx: int, dy: int) -> bool {
    -1 <= dx <= 1 && -1 <= dy <= 1
}

/// Numeric value of a digit sequence read as a base-32 number.
pub open spec fn digits_code(d: Seq<int>) -> int
    decreases d.len(),
{
    if d.len() == 0 {
        0
    } else {
        digits_code(d.drop_last()) * 32 + d.last()
    }
}

/// `32` to the power `n`.
pub open spec fn pow32(n: nat) -> nat
    decreases n,
{
    if n == 0 {
        1
    } else {
        pow32((n - 1) as nat) * 32
    }
}

/// Lexicographic order of texts, by code point (the order of `String`).
pub open spec fn text_lt(a: Seq<char>, b: Seq<char>) -> bool {
    ||| exists|k: int|
        #![trigger a[k], b[k]]
        0 <= k < a.len() && k < b.len() && a.take(k) == b.take(k) && (a[k] as int) < (b[k] as int)
    ||| (a.len() < b.len() && a == b.take(a.len() as int))
}

// ------------------------------------------------------------------
// Lemmas
// ------------------------------------------------------------------

proof fn lemma_digit_split(v: int)
    requires
        0 <= v < 32,
    ensures
        0 <= digit_high(v) < 8,
        0 <= digit_low(v) < 4,
        digit_join(digit_high(v), digit_low(v)) == v,
{
}

proof fn lemma_digit_join(h: int, l: int)
    requires
        0 <= h < 8,
        0 <= l < 4,
    ensures
        0 <= digit_join(h, l) < 32,
        digit_high(digit_join(h, l)) == h,
        digit_low(digit_join(h, l)) == l,
{
}

proof fn lemma_digit_char(v: int)
    requires
        0 <= v < 32,
    ensures
        char_digit(digit_char(v)) == Some(v),
{
}

proof fn lemma_char_digit(c: char)
    requires
        char_digit(c) is Some,
    ensures
        0 <= char_digit(c).unwrap() < 32,
        digit_char(char_digit(c).unwrap()) == c,
{
}

proof fn lemma_spans_positive(n: nat)
    ensures
        lon_span(n) >= 1,
        lat_span(n) >= 1,
    decreases n,
{
    if n > 0 {
        lemma_spans_positive((n - 1) as nat);
    }
}

proof fn lemma_spans_bounded(n: nat)
    requires
        n <= MAX_PRECISION,
    ensures
        lon_span(n) <= 0x4000_0000,
        lat_span(n) <= 0x4000_0000,
    decreases MAX_PRECISION - n,
{
    if n < MAX_PRECISION {
        lemma_spans_bounded(n + 1);
        lemma_spans_positive(n);
    } else {
        assert(lon_span(0) == 1 && lat_span(0) == 1);
        assert(lon_span(1) == 8 && lat_span(1) == 4);
        assert(lon_span(2) == 32 && lat_span(2) == 32);
        assert(lon_span(3) == 256 && lat_span(3) == 128);
        assert(lon_span(4) == 1024 && lat_span(4) == 1024);
        assert(lon_span(5) == 8192 && lat_span(5) == 4096);
        assert(lon_span(6) == 32768 && lat_span(6) == 32768);
        assert(lon_span(7) == 262144 && lat_span(7) == 131072);
        assert(lon_span(8) == 1048576 && lat_span(8) == 1048576);
        assert(lon_span(9) == 8388608 && lat_span(9) == 4194304);
        assert(lon_span(10) == 33554432 && lat_span(10) == 33554432);
        assert(lon_span(11) == 268435456 && lat_span(11) == 134217728);
        assert(lon_span(12) == 1073741824 && lat_span(12) == 1073741824);
    }
}

proof fn lemma_spans_at_least(n: nat)
    requires
        n >= 1,
    ensures
        lon_span(n) >= 8,
        lat_span(n) >= 4,
    decreases n,
{
    if n > 1 {
        lemma_spans_at_least((n - 1) as nat);
    } else {
        reveal_with_fuel(lon_span, 2);
        reveal_with_fuel(lat_span, 2);
    }
}


proof fn lemma_wrap_step(v: int, delta: int, span: int)
    requires
        0 <= v < span,
        -1 <= delta <= 1,
    ensures
        0 <= wrap_step(v, delta, span) < span,
        wrap_step(wrap_step(v, delta, span), -delta, span) == v,
{
}

/// Moving to a cell of the 3 x 3 block and back by the opposite offset
/// returns to the start; and the moved-to hash is well formed, of the same
/// length.
pub proof fn lemma_block_inverse(s: Seq<char>, dx: int, dy: int)
    requires
        is_geohash(s),
        in_block(dx, dy),
    ensures
        is_geohash(block_hash(s, dx, dy)),
        block_hash(s, dx, dy).len() == s.len(),
        block_hash(block_hash(s, dx, dy), -dx, -dy) == s,
{
    let n = s.len();
    let c = cell_of(s);
    lemma_hash_roundtrip(s);
    lemma_wrap_step(c.0, dx, lon_span(n) as int);
    lemma_wrap_step(c.1, dy, lat_span(n) as int);
    let x = wrap_step(c.0, dx, lon_span(n) as int);
    let y = wrap_step(c.1, dy, lat_span(n) as int);
    lemma_cell_roundtrip(x, y, n);
}

/// The cell of a block hash is the moved cell.
proof fn lemma_block_cell(s: Seq<char>, dx: int, dy: int)
    requires
        is_geohash(s),
        in_block(dx, dy),
    ensures
        cell_of(block_hash(s, dx, dy)) == (
            wrap_step(cell_of(s).0, dx, lon_span(s.len()) as int),
            wrap_step(cell_of(s).1, dy, lat_span(s.len()) as int),
        ),
{
    let n = s.len();
    let c = cell_of(s);
    lemma_hash_roundtrip(s);
    lemma_wrap_step(c.0, dx, lon_span(n) as int);
    lemma_wrap_step(c.1, dy, lat_span(n) as int);
    lemma_cell_roundtrip(
        wrap_step(c.0, dx, lon_span(n) as int),
        wrap_step(c.1, dy, lat_span(n) as int),
        n,
    );
}

/// The neighbour in a direction, then the neighbour in the opposite
/// direction, is the hash itself.
pub proof fn lemma_neighbor_reciprocity(s: Seq<char>, d: Direction)
    requires
        is_geohash(s),
    ensures
        is_geohash(neighbor_hash(s, d)),
        neighbor_hash(s, d).len() == s.len(),
        neighbor_hash(neighbor_hash(s, d), opposite(d)) == s,
{
    lemma_block_inverse(s, direction_step(d).0, direction_step(d).1);
}

/// The east and west neighbours of the north and south neighbours of a
/// hash are its four diagonal neighbours.
pub proof fn lemma_diagonal_neighbors(s: Seq<char>)
    requires
        is_geohash(s),
    ensures
        neighbor_hash(neighbor_hash(s, Direction::North), Direction::East) == block_hash(s, 1, 1),
        neighbor_hash(neighbor_hash(s, Direction::North), Direction::West) == block_hash(s, -1, 1),
        neighbor_hash(neighbor_hash(s, Direction::South), Direction::East) == block_hash(s, 1, -1),
        neighbor_hash(neighbor_hash(s, Direction::South), Direction::West) == block_hash(s, -1, -1),
{
    let n = s.len();
    let c = cell_of(s);
    lemma_hash_roundtrip(s);
    assert forall|dy: int| -1 <= dy <= 1 implies #[trigger] block_hash(block_hash(s, 0, dy), 1, 0)
        == block_hash(s, 1, dy) && block_hash(block_hash(s, 0, dy), -1, 0) == block_hash(
        s,
        -1,
        dy,
    ) by {
        lemma_block_inverse(s, 0, dy);
        lemma_block_cell(s, 0, dy);
        let t = block_hash(s, 0, dy);
        assert(t.len() == n);
        let y2 = wrap_step(c.1, dy, lat_span(n) as int);
        lemma_wrap_step(c.1, dy, lat_span(n) as int);
        assert(cell_of(t) == (c.0, y2));
        assert(wrap_step(y2, 0, lat_span(n) as int) == y2);
    }
    assert(block_hash(block_hash(s, 0, 1), 1, 0) == block_hash(s, 1, 1));
    assert(block_hash(block_hash(s, 0, -1), 1, 0) == block_hash(s, 1, -1));
}

/// Every hash of the 3 x 3 block around a hash has that hash in its own
/// block.
pub proof fn lemma_block_symmetric(s: Seq<char>, dx: int, dy: int)
    requires
        is_geohash(s),
        in_block(dx, dy),
    ensures
        in_block(-dx, -dy),
        block_hash(block_hash(s, dx, dy), -dx, -dy) == s,
{
    lemma_block_inverse(s, dx, dy);
}

/// The nine cells of the block are different cells.
proof fn lemma_block_distinct(s: Seq<char>, j: int, k: int)
    requires
        is_geohash(s),
        0 <= j < 9,
        0 <= k < 9,
        j != k,
    ensures
        ({
            let n = s.len();
            let c = cell_of(s);
            (wrap_step(c.0, block_offset(j).0, lon_span(n) as int), wrap_step(
                c.1,
                block_offset(j).1,
                lat_span(n) as int,
            )) != (wrap_step(c.0, block_offset(k).0, lon_span(n) as int), wrap_step(
                c.1,
                block_offset(k).1,
                lat_span(n) as int,
            ))
        }),
{
    lemma_hash_roundtrip(s);
    lemma_spans_at_least(s.len());
}

proof fn lemma_pow32_bounded(n: nat)
    requires
        n <= MAX_PRECISION,
    ensures
        1 <= pow32(n) <= 0x1000_0000_0000_0000,
    decreases MAX_PRECISION - n,
{
    if n < MAX_PRECISION {
        lemma_pow32_bounded(n + 1);
    } else {
        assert(pow32(0) == 1);
        assert(pow32(1) == 32);
        assert(pow32(2) == 1024);
        assert(pow32(3) == 32768);
        assert(pow32(4) == 1048576);
        assert(pow32(5) == 33554432);
        assert(pow32(6) == 1073741824);
        assert(pow32(7) == 34359738368);
        assert(pow32(8) == 1099511627776);
        assert(pow32(9) == 35184372088832);
        assert(pow32(10) == 1125899906842624);
        assert(pow32(11) == 36028797018963968);
        assert(pow32(12) == 1152921504606846976);
    }
}

proof fn lemma_code_bound(d: Seq<int>)
    requires
        digits_in_range(d),
    ensures
        0 <= digits_code(d) < pow32(d.len()),
    decreases d.len(),
{
    if d.len() > 0 {
        assert(digits_in_range(d.drop_last()));
        lemma_code_bound(d.drop_last());
    }
}

/// Two digit sequences of one length with one value are equal.
proof fn lemma_code_injective(a: Seq<int>, b: Seq<int>)
    requires
        a.len() == b.len(),
        digits_in_range(a),
        digits_in_range(b),
        digits_code(a) == digits_code(b),
    ensures
        a == b,
    decreases a.len(),
{
    if a.len() > 0 {
        assert(digits_in_range(a.drop_last()));
        assert(digits_in_range(b.drop_last()));
        lemma_code_bound(a.drop_last());
        lemma_code_bound(b.drop_last());
        assert(digits_code(a.drop_last()) == digits_code(b.drop_last()));
        lemma_code_injective(a.drop_last(), b.drop_last());
        assert(a =~= a.drop_last().push(a.last()));
        assert(b =~= b.drop_last().push(b.last()));
    }
}

/// A smaller value means a smaller digit at the first place where two
/// digit sequences of one length differ.
proof fn lemma_code_order(a: Seq<int>, b: Seq<int>)
    requires
        a.len() == b.len(),
        digits_in_range(a),
        digits_in_range(b),
        digits_code(a) < digits_code(b),
    ensures
        exists|k: int| 0 <= k < a.len() && a.take(k) == b.take(k) && #[trigger] a[k] < b[k],
    decreases a.len(),
{
    let n = a.len();
    let pa = a.drop_last();
    let pb = b.drop_last();
    assert(digits_in_range(pa));
    assert(digits_in_range(pb));
    lemma_code_bound(pa);
    lemma_code_bound(pb);
    if digits_code(pa) < digits_code(pb) {
        lemma_code_order(pa, pb);
        let k = choose|k: int| 0 <= k < pa.len() && pa.take(k) == pb.take(k) && #[trigger] pa[k] < pb[k];
        assert(a.take(k) =~= pa.take(k));
        assert(b.take(k) =~= pb.take(k));
        assert(a[k] == pa[k] && b[k] == pb[k]);
    } else if digits_code(pa) == digits_code(pb) {
        lemma_code_injective(pa, pb);
        assert(a.take(n - 1) =~= pa);
        assert(b.take(n - 1) =~= pb);
        assert(a[n - 1] < b[n - 1]);
    } else {
        assert(false);
    }
}

/// Texts of digit sequences of one length are ordered as their values.
proof fn lemma_code_text_order(a: Seq<int>, b: Seq<int>)
    requires
        a.len() == b.len(),
        digits_in_range(a),
        digits_in_range(b),
        digits_code(a) < digits_code(b),
    ensures
        text_lt(digits_text(a), digits_text(b)),
{
    lemma_code_order(a, b);
    let k = choose|k: int| 0 <= k < a.len() && a.take(k) == b.take(k) && #[trigger] a[k] < b[k];
    let ta = digits_text(a);
    let tb = digits_text(b);
    assert(ta.take(k) =~= tb.take(k)) by {
        assert forall|i: int| 0 <= i < k implies ta.take(k)[i] == tb.take(k)[i] by {
            assert(a.take(k)[i] == b.take(k)[i]);
        }
    }
    lemma_digit_char(a[k]);
    lemma_digit_char(b[k]);
    assert((ta[k] as int) < (tb[k] as int));
}

/// Decoding the digits of a cell gives the cell back.
pub proof fn lemma_cell_digits_roundtrip(x: int, y: int, n: nat)
    requires
        0 <= x < lon_span(n),
        0 <= y < lat_span(n),
    ensures
        cell_digits(x, y, n).len() == n,
        digits_in_range(cell_digits(x, y, n)),
        digits_cell(cell_digits(x, y, n)) == (x, y),
    decreases n,
{
    if n > 0 {
        let k = (n - 1) as nat;
        lemma_spans_positive(k);
        if k % 2 == 0 {
            lemma_cell_digits_roundtrip(x / 8, y / 4, k);
            lemma_digit_join(x % 8, y % 4);
            assert(cell_digits(x, y, n).drop_last() =~= cell_digits(x / 8, y / 4, k));
        } else {
            lemma_cell_digits_roundtrip(x / 4, y / 8, k);
            lemma_digit_join(y % 8, x % 4);
            assert(cell_digits(x, y, n).drop_last() =~= cell_digits(x / 4, y / 8, k));
        }
    }
}

/// Encoding the cell of a digit sequence gives the digits back.
proof fn lemma_digit_step(px: int, py: int, v: int, k: nat)
    requires
        0 <= px < lon_span(k),
        0 <= py < lat_span(k),
        0 <= v < 32,
    ensures
        ({
            let x = if k % 2 == 0 { px * 8 + digit_high(v) } else { px * 4 + digit_low(v) };
            let y = if k % 2 == 0 { py * 4 + digit_low(v) } else { py * 8 + digit_high(v) };
            &&& 0 <= x < lon_span(k + 1)
            &&& 0 <= y < lat_span(k + 1)
            &&& cell_digits(x, y, k + 1) == cell_digits(px, py, k).push(v)
        }),
{
    lemma_digit_split(v);
    let hv = digit_high(v);
    let lv = digit_low(v);
    let n = k + 1;
    assert((n - 1) as nat == k);
    if k % 2 == 0 {
        let x = px * 8 + hv;
        let y = py * 4 + lv;
        assert(x / 8 == px && x % 8 == hv && y / 4 == py && y % 4 == lv);
        assert(lon_span(n) == lon_span(k) * 8 && lat_span(n) == lat_span(k) * 4);
        assert(cell_digits(x, y, n) == cell_digits(x / 8, y / 4, k).push(digit_join(x % 8, y % 4)));
    } else {
        let x = px * 4 + lv;
        let y = py * 8 + hv;
        assert(x / 4 == px && x % 4 == lv && y / 8 == py && y % 8 == hv);
        assert(lon_span(n) == lon_span(k) * 4 && lat_span(n) == lat_span(k) * 8);
        assert(cell_digits(x, y, n) == cell_digits(x / 4, y / 8, k).push(digit_join(y % 8, x % 4)));
    }
}

/// Encoding the cell of a digit sequence gives the digits back.
pub proof fn lemma_digits_cell_roundtrip(d: Seq<int>)
    requires
        digits_in_range(d),
    ensures
        0 <= digits_cell(d).0 < lon_span(d.len()),
        0 <= digits_cell(d).1 < lat_span(d.len()),
        cell_digits(digits_cell(d).0, digits_cell(d).1, d.len()) == d,
    decreases d.len(),
{
    if d.len() > 0 {
        let p = d.drop_last();
        let k = p.len();
        let v = d.last();
        assert(digits_in_range(p));
        lemma_digits_cell_roundtrip(p);
        lemma_digit_step(digits_cell(p).0, digits_cell(p).1, v, k);
        assert(p.push(v) =~= d);
        assert(d.len() == k + 1);
    }
}

proof fn lemma_digits_text_roundtrip(d: Seq<int>)
    requires
        digits_in_range(d),
    ensures
        digits(digits_text(d)) == d,
        forall|i: int| 0 <= i < d.len() ==> (#[trigger] char_digit(digits_text(d)[i])) is Some,
{
    assert forall|i: int| 0 <= i < d.len() implies char_digit(#[trigger] digits_text(d)[i]) == Some(
        d[i],
    ) by {
        lemma_digit_char(d[i]);
    }
    assert(digits(digits_text(d)) =~= d);
}

proof fn lemma_text_digits_roundtrip(s: Seq<char>)
    requires
        forall|i: int| 0 <= i < s.len() ==> (#[trigger] char_digit(s[i])) is Some,
    ensures
        digits_in_range(digits(s)),
        digits_text(digits(s)) == s,
{
    assert forall|i: int| 0 <= i < s.len() implies 0 <= #[trigger] digits(s)[i] < 32
        && digit_char(digits(s)[i]) == s[i] by {
        lemma_char_digit(s[i]);
    }
    assert(digits_text(digits(s)) =~= s);
}

/// The cell of a hash lies in the grid, and its hash is the hash itself.
pub proof fn lemma_hash_roundtrip(s: Seq<char>)
    requires
        is_geohash(s),
    ensures
        0 <= cell_of(s).0 < lon_span(s.len()),
        0 <= cell_of(s).1 < lat_span(s.len()),
        hash_at(cell_of(s).0, cell_of(s).1, s.len()) == s,
{
    lemma_text_digits_roundtrip(s);
    lemma_digits_cell_roundtrip(digits(s));
}

/// The hash of a cell of the grid is well formed, and names that cell.
pub proof fn lemma_cell_roundtrip(x: int, y: int, n: nat)
    requires
        1 <= n <= MAX_PRECISION,
        0 <= x < lon_span(n),
        0 <= y < lat_span(n),
    ensures
        is_geohash(hash_at(x, y, n)),
        hash_at(x, y, n).len() == n,
        cell_of(hash_at(x, y, n)) == (x, y),
{
    lemma_cell_digits_roundtrip(x, y, n);
    lemma_digits_text_roundtrip(cell_digits(x, y, n));
}

// ------------------------------------------------------------------
// Executable parts
// ------------------------------------------------------------------

fn digit_value(c: char) -> (r: Option<u8>)
    ensures
        match r {
            Some(v) => char_digit(c) == Some(v as int),
            None => char_digit(c) is None,
        },
{
    let u = c as u32;
    if 48 <= u && u <= 57 {
        Some((u - 48) as u8)
    } else if 98 <= u && u <= 104 {
        Some((u - 88) as u8)
    } else if 106 <= u && u <= 107 {
        Some((u - 89) as u8)
    } else if 109 <= u && u <= 110 {
        Some((u - 90) as u8)
    } else if 112 <= u && u <= 122 {
        Some((u - 91) as u8)
    } else {
        None
    }
}

fn digit_to_char(v: u8) -> (c: char)
    requires
        v < 32,
    ensures
        c == digit_char(v as int),
{
    let code: u8 = if v < 10 {
        48 + v
    } else if v < 17 {
        88 + v
    } else if v < 19 {
        89 + v
    } else if v < 21 {
        90 + v
    } else {
        91 + v
    };
    code as char
}

/// Whether `geohash` is a well-formed hash: 1 to 12 characters of the
/// base32 alphabet.
pub fn valid_geohash(geohash: &str) -> (b: bool)
    ensures
        b == is_geohash(geohash@),
{
    let n = geohash.unicode_len();
    if n == 0 || n > MAX_PRECISION {
        return false;
    }
    let mut i: usize = 0;
    while i < n
        invariant
            n == geohash@.len(),
            i <= n,
            forall|j: int| 0 <= j < i ==> (#[trigger] char_digit(geohash@[j])) is Some,
        decreases n - i,
    {
        let c = geohash.get_char(i);
        if digit_value(c).is_none() {
            return false;
        }
        i = i + 1;
    }
    true
}

/// Column count and row count of the grid of hashes of length `n`.
fn grid_spans(n: usize) -> (r: (u64, u64))
    requires
        n <= MAX_PRECISION,
    ensures
        r.0 == lon_span(n as nat),
        r.1 == lat_span(n as nat),
{
    let mut w: u64 = 1;
    let mut h: u64 = 1;
    let mut i: usize = 0;
    while i < n
        invariant
            i <= n <= MAX_PRECISION,
            w == lon_span(i as nat),
            h == lat_span(i as nat),
        decreases n - i,
    {
        proof {
            lemma_spans_bounded(i as nat);
        }
        if i % 2 == 0 {
            w = w * 8;
            h = h * 4;
        } else {
            w = w * 4;
            h = h * 8;
        }
        i = i + 1;
    }
    (w, h)
}

/// Column and row of a well-formed hash, with the column and row counts
/// of its grid.
fn decode_cell(geohash: &str) -> (r: (u64, u64, u64, u64))
    requires
        is_geohash(geohash@),
    ensures
        r.0 == cell_of(geohash@).0,
        r.1 == cell_of(geohash@).1,
        r.2 == lon_span(geohash@.len()),
        r.3 == lat_span(geohash@.len()),
        r.0 < r.2,
        r.1 < r.3,
{
    let n = geohash.unicode_len();
    let ghost d = digits(geohash@);
    let mut x: u64 = 0;
    let mut y: u64 = 0;
    let mut w: u64 = 1;
    let mut h: u64 = 1;
    let mut i: usize = 0;
    while i < n
        invariant
            n == geohash@.len(),
            is_geohash(geohash@),
            d == digits(geohash@),
            i <= n,
            x as int == digits_cell(d.take(i as int)).0,
            y as int == digits_cell(d.take(i as int)).1,
            w == lon_span(i as nat),
            h == lat_span(i as nat),
            x < w,
            y < h,
        decreases n - i,
    {
        proof {
            lemma_spans_bounded(i as nat);
        }
        let c = geohash.get_char(i);
        let v: u64 = match digit_value(c) {
            Some(v) => v as u64,
            None => {
                assert(char_digit(geohash@[i as int]) is Some);
                0
            },
        };
        proof {
            lemma_digit_split(v as int);
            assert(d.take(i + 1).drop_last() =~= d.take(i as int));
        }
        let high = (v / 16) * 4 + ((v / 4) % 2) * 2 + v % 2;
        let low = ((v / 8) % 2) * 2 + (v / 2) % 2;
        if i % 2 == 0 {
            x = x * 8 + high;
            y = y * 4 + low;
            w = w * 8;
            h = h * 4;
        } else {
            x = x * 4 + low;
            y = y * 8 + high;
            w = w * 4;
            h = h * 8;
        }
        i = i + 1;
    }
    assert(d.take(n as int) =~= d);
    (x, y, w, h)
}

/// Digit values of the cell in column `x` and row `y` of the grid of length `n`.
fn cell_digit_values(x: u64, y: u64, n: usize) -> (d: Vec<u8>)
    requires
        n <= MAX_PRECISION,
        x < lon_span(n as nat),
        y < lat_span(n as nat),
    ensures
        digit_ints(d@) == cell_digits(x as int, y as int, n as nat),
        d@.len() == n,
        digits_in_range(digit_ints(d@)),
{
    let mut d: Vec<u8> = Vec::new();
    let mut k: usize = 0;
    while k < n
        invariant
            k <= n,
            d@.len() == k,
        decreases n - k,
    {
        d.push(0);
        k = k + 1;
    }
    let mut cx = x;
    let mut cy = y;
    let mut i = n;
    proof {
        lemma_cell_digits_roundtrip(x as int, y as int, n as nat);
    }
    while i > 0
        invariant
            i <= n <= MAX_PRECISION,
            d@.len() == n,
            cx < lon_span(i as nat),
            cy < lat_span(i as nat),
            cell_digits(x as int, y as int, n as nat) =~= cell_digits(cx as int, cy as int, i as nat)
                + digit_ints(d@).subrange(i as int, n as int),
        decreases i,
    {
        let k = i - 1;
        proof {
            lemma_spans_positive(k as nat);
        }
        let v: u8;
        if k % 2 == 0 {
            let h = cx % 8;
            let l = cy % 4;
            proof {
                lemma_digit_join(h as int, l as int);
            }
            v = ((h / 4) * 16 + (l / 2) * 8 + ((h / 2) % 2) * 4 + (l % 2) * 2 + h % 2) as u8;
            cx = cx / 8;
            cy = cy / 4;
        } else {
            let h = cy % 8;
            let l = cx % 4;
            proof {
                lemma_digit_join(h as int, l as int);
            }
            v = ((h / 4) * 16 + (l / 2) * 8 + ((h / 2) % 2) * 4 + (l % 2) * 2 + h % 2) as u8;
            cx = cx / 4;
            cy = cy / 8;
        }
        let ghost before = digit_ints(d@).subrange(i as int, n as int);
        d.set(k, v);
        assert(digit_ints(d@).subrange(k as int, n as int) =~= seq![v as int] + before);
        i = k;
    }
    assert(digit_ints(d@) =~= digit_ints(d@).subrange(0, n as int));
    d
}

/// The text of a digit buffer.
fn digits_to_string(d: &Vec<u8>) -> (s: String)
    requires
        digits_in_range(digit_ints(d@)),
    ensures
        s@ == digits_text(digit_ints(d@)),
{
    let mut s = String::new();
    let mut i: usize = 0;
    while i < d.len()
        invariant
            i <= d@.len(),
            digits_in_range(digit_ints(d@)),
            s@ =~= digits_text(digit_ints(d@)).take(i as int),
        decreases d@.len() - i,
    {
        assert(0 <= digit_ints(d@)[i as int] < 32);
        let c = digit_to_char(d[i]);
        push_char(&mut s, c);
        i = i + 1;
    }
    s
}

/// The hash of length `precision` of the cell in column `lon_index` and row
/// `lat_index`; `None` when the precision is above 12 or the cell lies
/// outside that grid.
pub fn encode_cell(lon_index: u64, lat_index: u64, precision: usize) -> (r: Option<String>)
    ensures
        r is Some <==> (precision <= MAX_PRECISION && lon_index < lon_span(precision as nat)
            && lat_index < lat_span(precision as nat)),
        r matches Some(s) ==> s@ == hash_at(lon_index as int, lat_index as int, precision as nat),
{
    if precision > MAX_PRECISION {
        return None;
    }
    let (w, h) = grid_spans(precision);
    if lon_index >= w || lat_index >= h {
        return None;
    }
    let d = cell_digit_values(lon_index, lat_index, precision);
    Some(digits_to_string(&d))
}

/// One wrapping step along an axis of `span` cells.
fn step_index(v: u64, delta: i8, span: u64) -> (r: u64)
    requires
        v < span,
        -1 <= delta <= 1,
    ensures
        r as int == wrap_step(v as int, delta as int, span as int),
        r < span,
{
    if delta > 0 {
        if v + 1 == span {
            0
        } else {
            v + 1
        }
    } else if delta < 0 {
        if v == 0 {
            span - 1
        } else {
            v - 1
        }
    } else {
        v
    }
}

fn direction_delta(direction: Direction) -> (r: (i8, i8))
    ensures
        r.0 as int == direction_step(direction).0,
        r.1 as int == direction_step(direction).1,
{
    match direction {
        Direction::North => (0, 1),
        Direction::South => (0, -1),
        Direction::East => (1, 0),
        Direction::West => (-1, 0),
    }
}

/// The hash of the cell next to `geohash` in `direction`, of the same
/// length; the grid wraps around at its edges. `None` when `geohash` is not
/// a well-formed hash.
pub fn neighbor(geohash: &str, direction: Direction) -> (r: Option<String>)
    ensures
        r is Some <==> is_geohash(geohash@),
        r matches Some(s) ==> s@ == neighbor_hash(geohash@, direction),
{
    if !valid_geohash(geohash) {
        return None;
    }
    let n = geohash.unicode_len();
    let (x, y, w, h) = decode_cell(geohash);
    let (dx, dy) = direction_delta(direction);
    let nx = step_index(x, dx, w);
    let ny = step_index(y, dy, h);
    let d = cell_digit_values(nx, ny, n);
    Some(digits_to_string(&d))
}


/// Digits of cell `k` of the block around `s`.
pub open spec fn block_digits(s: Seq<char>, k: int) -> Seq<int> {
    let n = s.len();
    let c = cell_of(s);
    cell_digits(
        wrap_step(c.0, block_offset(k).0, lon_span(n) as int),
        wrap_step(c.1, block_offset(k).1, lat_span(n) as int),
        n,
    )
}

fn block_delta(k: usize) -> (r: (i8, i8))
    requires
        k < 9,
    ensures
        r.0 as int == block_offset(k as int).0,
        r.1 as int == block_offset(k as int).1,
{
    if k == 0 {
        (0, 0)
    } else if k == 1 {
        (0, 1)
    } else if k == 2 {
        (0, -1)
    } else if k == 3 {
        (1, 0)
    } else if k == 4 {
        (-1, 0)
    } else if k == 5 {
        (1, 1)
    } else if k == 6 {
        (-1, 1)
    } else if k == 7 {
        (1, -1)
    } else {
        (-1, -1)
    }
}

/// Value of a digit buffer read as a base-32 number.
fn digits_code_exec(d: &Vec<u8>) -> (c: u64)
    requires
        d@.len() <= MAX_PRECISION,
        digits_in_range(digit_ints(d@)),
    ensures
        c as int == digits_code(digit_ints(d@)),
{
    let ghost di = digit_ints(d@);
    let mut acc: u64 = 0;
    let mut i: usize = 0;
    while i < d.len()
        invariant
            d@.len() <= MAX_PRECISION,
            di == digit_ints(d@),
            digits_in_range(di),
            i <= d@.len(),
            acc as int == digits_code(di.take(i as int)),
            acc < pow32(i as nat),
        decreases d@.len() - i,
    {
        proof {
            lemma_pow32_bounded((i + 1) as nat);
            assert(di.take(i + 1).drop_last() =~= di.take(i as int));
            assert(0 <= di[i as int] < 32);
        }
        acc = acc * 32 + d[i] as u64;
        i = i + 1;
    }
    assert(di.take(d@.len() as int) =~= di);
    acc
}

/// `v` is the 3 x 3 block around `s`: nine hashes, each one of the block,
/// every one of the block present, in strictly increasing string order.
pub open spec fn is_block_list(s: Seq<char>, v: Seq<Seq<char>>) -> bool {
    &&& v.len() == 9
    &&& forall|i: int| 0 <= i < v.len() ==> #[trigger] in_block_of(s, v[i])
    &&& forall|dx: int, dy: int| in_block(dx, dy) ==> #[trigger] listed(v, block_hash(s, dx, dy))
    &&& forall|i: int, j: int| 0 <= i < j < v.len() ==> text_lt(v[i], v[j])
}

/// `t` is one of the nine hashes of the block around `s`.
pub open spec fn in_block_of(s: Seq<char>, t: Seq<char>) -> bool {
    exists|dx: int, dy: int| in_block(dx, dy) && t == #[trigger] block_hash(s, dx, dy)
}

/// `t` stands in the list `v`.
pub open spec fn listed(v: Seq<Seq<char>>, t: Seq<char>) -> bool {
    exists|i: int| 0 <= i < v.len() && #[trigger] v[i] == t
}

/// The state of the block table after its first `k` cells went in.
spec fn block_table(
    s: Seq<char>,
    k: int,
    codes: Seq<u64>,
    cells: Seq<Vec<u8>>,
    origin: Seq<int>,
    place: Seq<int>,
) -> bool {
    &&& codes.len() == k
    &&& cells.len() == k
    &&& origin.len() == k
    &&& place.len() == k
    &&& forall|i: int|
        0 <= i < k ==> {
            &&& 0 <= #[trigger] origin[i] < k
            &&& place[origin[i]] == i
            &&& digit_ints(cells[i]@) == block_digits(s, origin[i])
            &&& cells[i]@.len() == s.len()
            &&& digits_in_range(digit_ints(cells[i]@))
            &&& codes[i] as int == digits_code(digit_ints(cells[i]@))
        }
    &&& forall|j: int| 0 <= j < k ==> 0 <= #[trigger] place[j] < k && origin[place[j]] == j
    &&& forall|i: int, j: int| 0 <= i < j < k ==> codes[i] < codes[j]
}

spec fn place_after_insert(place: Seq<int>, p: int, k: int) -> Seq<int> {
    Seq::new(
        (k + 1) as nat,
        |j: int|
            if j == k {
                p
            } else if place[j] >= p {
                place[j] + 1
            } else {
                place[j]
            },
    )
}

/// Inserting block cell `k` at its sorted place keeps the table.
proof fn lemma_block_table_insert(
    s: Seq<char>,
    k: int,
    codes: Seq<u64>,
    cells: Seq<Vec<u8>>,
    origin: Seq<int>,
    place: Seq<int>,
    p: int,
    c: u64,
    d: Vec<u8>,
)
    requires
        is_geohash(s),
        0 <= k < 9,
        block_table(s, k, codes, cells, origin, place),
        0 <= p <= k,
        forall|i: int| 0 <= i < p ==> codes[i] < c,
        p < k ==> codes[p] >= c,
        digit_ints(d@) == block_digits(s, k),
        c as int == digits_code(digit_ints(d@)),
    ensures
        p < k ==> codes[p] > c,
        block_table(
            s,
            k + 1,
            codes.insert(p, c),
            cells.insert(p, d),
            origin.insert(p, k),
            place_after_insert(place, p, k),
        ),
{
    let n = s.len();
    let cell = cell_of(s);
    lemma_hash_roundtrip(s);
    let kx = wrap_step(cell.0, block_offset(k).0, lon_span(n) as int);
    let ky = wrap_step(cell.1, block_offset(k).1, lat_span(n) as int);
    lemma_wrap_step(cell.0, block_offset(k).0, lon_span(n) as int);
    lemma_wrap_step(cell.1, block_offset(k).1, lat_span(n) as int);
    lemma_cell_digits_roundtrip(kx, ky, n);
    assert(d@.len() == digit_ints(d@).len());
    if p < k && codes[p] == c {
        let j = origin[p];
        lemma_code_injective(digit_ints(cells[p]@), digit_ints(d@));
        lemma_block_distinct(s, j, k);
        let jx = wrap_step(cell.0, block_offset(j).0, lon_span(n) as int);
        let jy = wrap_step(cell.1, block_offset(j).1, lat_span(n) as int);
        lemma_wrap_step(cell.0, block_offset(j).0, lon_span(n) as int);
        lemma_wrap_step(cell.1, block_offset(j).1, lat_span(n) as int);
        lemma_cell_digits_roundtrip(jx, jy, n);
        assert(false);
    }
    codes.insert_ensures(p, c);
    cells.insert_ensures(p, d);
    origin.insert_ensures(p, k);
    let codes2 = codes.insert(p, c);
    let cells2 = cells.insert(p, d);
    let origin2 = origin.insert(p, k);
    let place2 = place_after_insert(place, p, k);
    assert forall|i: int| 0 <= i < k + 1 implies {
        &&& 0 <= #[trigger] origin2[i] < k + 1
        &&& place2[origin2[i]] == i
        &&& digit_ints(cells2[i]@) == block_digits(s, origin2[i])
        &&& cells2[i]@.len() == s.len()
        &&& digits_in_range(digit_ints(cells2[i]@))
        &&& codes2[i] as int == digits_code(digit_ints(cells2[i]@))
    } by {
        if i < p {
            assert(origin2[i] == origin[i]);
        } else if i == p {
        } else {
            assert(origin2[i] == origin[i - 1]);
            assert(cells2[i] == cells[i - 1]);
            assert(codes2[i] == codes[i - 1]);
        }
    }
    assert forall|j: int| 0 <= j < k + 1 implies 0 <= #[trigger] place2[j] < k + 1 && origin2[place2[j]]
        == j by {
        if j < k {
            let q = place[j];
            if q >= p {
                assert(origin2[q + 1] == origin[q]);
            } else {
                assert(origin2[q] == origin[q]);
            }
        }
    }
    assert forall|i: int, j: int| 0 <= i < j < k + 1 implies codes2[i] < codes2[j] by {
        if j < p {
            assert(codes2[i] == codes[i] && codes2[j] == codes[j]);
        } else if j == p {
            assert(codes2[i] == codes[i]);
        } else if i < p {
            assert(codes2[i] == codes[i] && codes2[j] == codes[j - 1]);
            assert(codes[i] < c);
        } else if i == p {
            assert(codes2[j] == codes[j - 1]);
            if j - 1 > p {
                assert(codes[p] < codes[j - 1]);
            }
        } else {
            assert(codes2[i] == codes[i - 1] && codes2[j] == codes[j - 1]);
        }
    }
}

/// The finished table, read as texts, is the block list.
proof fn lemma_block_table_done(
    s: Seq<char>,
    codes: Seq<u64>,
    cells: Seq<Vec<u8>>,
    origin: Seq<int>,
    place: Seq<int>,
    out: Seq<Seq<char>>,
)
    requires
        is_geohash(s),
        block_table(s, 9, codes, cells, origin, place),
        out.len() == 9,
        forall|m: int| 0 <= m < 9 ==> #[trigger] out[m] == digits_text(digit_ints(cells[m]@)),
    ensures
        is_block_list(s, out),
{
    assert forall|m: int| 0 <= m < 9 implies #[trigger] out[m] == block_hash(
        s,
        block_offset(origin[m]).0,
        block_offset(origin[m]).1,
    ) by {}
    assert forall|m: int| 0 <= m < out.len() implies #[trigger] in_block_of(s, out[m]) by {
        let j = origin[m];
        let dx = block_offset(j).0;
        let dy = block_offset(j).1;
        assert(in_block(dx, dy) && out[m] == block_hash(s, dx, dy));
    }
    assert forall|dx: int, dy: int| in_block(dx, dy) implies #[trigger] listed(out, block_hash(s, dx, dy)) by {
        let j: int = if dx == 0 && dy == 0 {
            0
        } else if dx == 0 && dy == 1 {
            1
        } else if dx == 0 && dy == -1 {
            2
        } else if dx == 1 && dy == 0 {
            3
        } else if dx == -1 && dy == 0 {
            4
        } else if dx == 1 && dy == 1 {
            5
        } else if dx == -1 && dy == 1 {
            6
        } else if dx == 1 && dy == -1 {
            7
        } else {
            8
        };
        assert(block_offset(j) == (dx, dy));
        let m = place[j];
        assert(0 <= m && m < out.len() && out[m] == block_hash(s, dx, dy));
    }
    assert forall|a: int, b: int| 0 <= a < b < out.len() implies text_lt(out[a], out[b]) by {
        assert(0 <= origin[a] < 9 && 0 <= origin[b] < 9);
        lemma_code_text_order(digit_ints(cells[a]@), digit_ints(cells[b]@));
    }
    assert(out.len() == 9);
    assert(forall|i: int, j: int| 0 <= i < j < out.len() ==> text_lt(out[i], out[j]));
}

/// The hash itself and its eight surrounding hashes (the four neighbours
/// and the four diagonal ones, on a grid that wraps around), sorted in
/// string order with no repetition; `None` when `geohash` is not a
/// well-formed hash.
pub fn try_get_neighbors(geohash: &str) -> (r: Option<Vec<String>>)
    ensures
        r is Some <==> is_geohash(geohash@),
        r matches Some(v) ==> is_block_list(geohash@, texts_of(v@)),
{
    if !valid_geohash(geohash) {
        return None;
    }
    let ghost s = geohash@;
    let n = geohash.unicode_len();
    let (x, y, w, h) = decode_cell(geohash);
    proof {
        lemma_hash_roundtrip(s);
        lemma_spans_bounded(n as nat);
    }
    // The table is kept sorted by the value of the digits, which is the
    // string order of hashes of one length.
    let mut codes: Vec<u64> = Vec::new();
    let mut cells: Vec<Vec<u8>> = Vec::new();
    let ghost mut origin: Seq<int> = Seq::empty();
    let ghost mut place: Seq<int> = Seq::empty();
    let mut k: usize = 0;
    while k < 9
        invariant
            is_geohash(s),
            s == geohash@,
            n == s.len(),
            x == cell_of(s).0,
            y == cell_of(s).1,
            w == lon_span(n as nat),
            h == lat_span(n as nat),
            x < w,
            y < h,
            k <= 9,
            block_table(s, k as int, codes@, cells@, origin, place),
        decreases 9 - k,
    {
        let (dx, dy) = block_delta(k);
        let cx = step_index(x, dx, w);
        let cy = step_index(y, dy, h);
        let d = cell_digit_values(cx, cy, n);
        let c = digits_code_exec(&d);
        let mut p: usize = 0;
        while p < codes.len() && codes[p] < c
            invariant
                p <= codes@.len(),
                forall|i: int| 0 <= i < p ==> codes@[i] < c,
            decreases codes@.len() - p,
        {
            p = p + 1;
        }
        proof {
            lemma_block_table_insert(s, k as int, codes@, cells@, origin, place, p as int, c, d);
            origin = origin.insert(p as int, k as int);
            place = place_after_insert(place, p as int, k as int);
        }
        if p < codes.len() && codes[p] == c {
            // a repeated cell; the table never holds one (see the lemma above)
        } else {
            codes.insert(p, c);
            cells.insert(p, d);
        }
        k = k + 1;
    }
    let mut out: Vec<String> = Vec::new();
    let mut i: usize = 0;
    while i < 9
        invariant
            i <= 9,
            block_table(s, 9, codes@, cells@, origin, place),
            out@.len() == i,
            forall|m: int|
                0 <= m < i ==> #[trigger] out@[m]@ == digits_text(digit_ints(cells@[m]@)),
        decreases 9 - i,
    {
        assert(0 <= origin[i as int] < 9);
        assert(digits_in_range(digit_ints(cells@[i as int]@)));
        let t = digits_to_string(&cells[i]);
        out.push(t);
        i = i + 1;
    }
    proof {
        lemma_block_table_done(s, codes@, cells@, origin, place, texts_of(out@));
    }
    Some(out)
}

/// `try_get_neighbors`, with an empty list for a malformed hash.
pub fn get_neighbors(geohash: &str) -> (r: Vec<String>)
    ensures
        is_geohash(geohash@) ==> is_block_list(geohash@, texts_of(r@)),
        !is_geohash(geohash@) ==> r.len() == 0,
{
    match try_get_neighbors(geohash) {
        Some(v) => v,
        None => Vec::new(),
    }
}

} // verus!
