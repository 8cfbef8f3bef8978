//! Meshes read from a model: vertices, and the triangles that faces are
//! cut into.

use vstd::prelude::*;
use crate::square::triangle_of;
use crate::triangle::Triangle;
use crate::vector::{Vec2, Vec3};

verus! {

/// What has been read of a model so far.
pub struct ObjMesh {
    pub v: Vec<Vec3>,
    pub vt: Vec<Vec2>,
    pub vn: Vec<Vec3>,
    pub triangles: Vec<Triangle>,
    pub color: Vec3,
}

/// The fan of triangles that a face is cut into: each has the first corner
/// of the face and two corners that follow one another. `corners` holds the
/// number of each corner's vertex, counted from one.
pub open spec fn fan(vertices: Seq<Vec3>, corners: Seq<usize>, color: Vec3, n: int) -> Seq<
    Triangle,
>
    decreases n,
{
    if n <= 0 {
        Seq::empty()
    } else {
        fan(vertices, corners, color, n - 1).push(
            triangle_of(
                vertices[corners[0] - 1],
                vertices[corners[n] - 1],
                vertices[corners[n + 1] - 1],
                color,
            ),
        )
    }
}

impl ObjMesh {
    /// Every corner names a vertex that has been read.
    pub open spec fn names_vertices(self, corners: Seq<usize>) -> bool {
        forall|i: int| 0 <= i < corners.len() ==> 1 <= #[trigger] corners[i] <= self.v.len()
    }

    /// A mesh of the given colour with nothing read yet.
    pub fn new(color: Vec3) -> (r: ObjMesh)
        ensures
            r.v@.len() == 0,
            r.vt@.len() == 0,
            r.vn@.len() == 0,
            r.triangles@.len() == 0,
            r.color == color,
    {
        ObjMesh { v: Vec::new(), vt: Vec::new(), vn: Vec::new(), triangles: Vec::new(), color }
    }

    /// The vertex that a corner names, counted from one.
    pub fn read_corner(&self, vertex: usize) -> (r: Vec3)
        requires
            1 <= vertex <= self.v.len(),
        ensures
            r == self.v[vertex - 1],
    {
        self.v[vertex - 1]
    }

    /// Adds the triangles of a face with the given corners: none for fewer
    /// than three corners, else a fan about the first corner.
    pub fn read_face_data(&mut self, corners: &Vec<usize>)
        requires
            corners.len() >= 1,
            old(self).names_vertices(corners@),
        ensures
            final(self).v == old(self).v,
            final(self).vt == old(self).vt,
            final(self).vn == old(self).vn,
            final(self).color == old(self).color,
            final(self).triangles@ == old(self).triangles@ + fan(
                old(self).v@,
                corners@,
                old(self).color,
                corners.len() - 2,
            ),
    {
        let first: usize = corners[0];
        let mut i: usize = 1;
        assert(fan(self.v@, corners@, self.color, 0) =~= Seq::empty());
        while i < corners.len() - 1
            invariant
                1 <= i,
                i <= corners.len() - 1 || i == 1,
                corners.len() >= 1,
                first == corners[0],
                self.names_vertices(corners@),
                self.v == old(self).v,
                self.vt == old(self).vt,
                self.vn == old(self).vn,
                self.color == old(self).color,
                self.triangles@ == old(self).triangles@ + fan(
                    self.v@,
                    corners@,
                    self.color,
                    i - 1,
                ),
            decreases corners.len() - i,
        {
            let mut tri = Triangle::new();
            tri.corners = [
                self.read_corner(first),
                self.read_corner(corners[i]),
                self.read_corner(corners[i + 1]),
            ];
            tri.color = self.color;
            tri.make_centroid();
            proof {
                let want = triangle_of(
                    self.v[corners[0] - 1],
                    self.v[corners[i as int] - 1],
                    self.v[corners[i + 1] - 1],
                    self.color,
                );
                assert(tri.corners =~= want.corners);
                assert(tri == want);
            }
            self.triangles.push(tri);
            i = i + 1;
        }
        proof {
            if corners.len() < 2 {
                assert(fan(self.v@, corners@, self.color, corners.len() - 2) =~= Seq::empty());
            }
        }
    }
}

/// The byte `/`, which parts the numbers of a corner.
pub const SLASH: u8 = 47;

/// The byte `+`, which may stand before a number.
pub const PLUS: u8 = 43;

/// The byte `0`; the other digits follow it.
pub const ZERO: u8 = 48;

/// A decimal digit.
pub open spec fn is_digit(byte: u8) -> bool {
    ZERO <= byte <= ZERO + 9
}

/// Every byte is a decimal digit.
pub open spec fn all_digits(bytes: Seq<u8>) -> bool {
    forall|i: int| 0 <= i < bytes.len() ==> is_digit(#[trigger] bytes[i])
}

/// The number that decimal digits write.
pub open spec fn decimal(digits: Seq<u8>) -> int
    decreases digits.len(),
{
    if digits.len() == 0 {
        0
    } else {
        10 * decimal(digits.drop_last()) + (digits.last() - ZERO)
    }
}

/// Where the first `/` at or after `from` stands, or the length if there
/// is none.
pub open spec fn first_slash(bytes: Seq<u8>, from: int) -> int
    decreases bytes.len() - from,
{
    if from >= bytes.len() {
        bytes.len() as int
    } else if bytes[from] == SLASH {
        from
    } else {
        first_slash(bytes, from + 1)
    }
}

/// The digits of the vertex number in the description of a corner: what
/// stands before the first `/`, without a `+` at its head.
pub open spec fn number_digits(description: Seq<u8>) -> Seq<u8> {
    let end = first_slash(description, 0);
    if end > 0 && description[0] == PLUS {
        description.subrange(1, end)
    } else {
        description.subrange(0, end)
    }
}

/// The vertex number that the description of a corner begins with, such as
/// the 12 of `12/7/3` or of `12`. There is none where no digit stands before
/// the first `/`, where anything but digits stands there after a `+` that
/// may come first, or where the number is too great for the machine.
pub open spec fn spec_corner_number(description: Seq<u8>) -> Option<usize> {
    let digits = number_digits(description);
    if digits.len() > 0 && all_digits(digits) && decimal(digits) <= usize::MAX {
        Some(decimal(digits) as usize)
    } else {
        None
    }
}

/// With no `/` from `from` up to `to`, the first `/` stands at `to` if one
/// stands there or the bytes end there, and beyond `to` else.
pub proof fn lemma_first_slash(bytes: Seq<u8>, from: int, to: int)
    requires
        0 <= from <= to <= bytes.len(),
        forall|i: int| from <= i < to ==> #[trigger] bytes[i] != SLASH,
    ensures
        to <= first_slash(bytes, from) <= bytes.len(),
        to == bytes.len() || bytes[to] == SLASH ==> first_slash(bytes, from) == to,
        to < bytes.len() && bytes[to] != SLASH ==> first_slash(bytes, from) > to,
    decreases to - from,
{
    if from < to {
        lemma_first_slash(bytes, from + 1, to);
    } else if to < bytes.len() && bytes[to] != SLASH {
        lemma_first_slash_from(bytes, to + 1);
    }
}

/// The first `/` at or after `from` stands at or after `from`.
pub proof fn lemma_first_slash_from(bytes: Seq<u8>, from: int)
    requires
        0 <= from <= bytes.len(),
    ensures
        from <= first_slash(bytes, from) <= bytes.len(),
    decreases bytes.len() - from,
{
    if from < bytes.len() && bytes[from] != SLASH {
        lemma_first_slash_from(bytes, from + 1);
    }
}

/// Digits written after a number make it no less.
pub proof fn lemma_decimal_grows(digits: Seq<u8>, n: int)
    requires
        0 <= n <= digits.len(),
        all_digits(digits),
    ensures
        0 <= decimal(digits.subrange(0, n)) <= decimal(digits),
    decreases digits.len() - n,
{
    if n < digits.len() {
        let longer = digits.subrange(0, n + 1);
        assert(longer.drop_last() =~= digits.subrange(0, n));
        assert(is_digit(digits[n]));
        lemma_decimal_least(digits.subrange(0, n));
        lemma_decimal_grows(digits, n + 1);
    } else {
        assert(digits.subrange(0, n) =~= digits);
        lemma_decimal_least(digits);
    }
}

/// Digits write no number below zero.
pub proof fn lemma_decimal_least(digits: Seq<u8>)
    requires
        all_digits(digits),
    ensures
        0 <= decimal(digits),
    decreases digits.len(),
{
    if digits.len() > 0 {
        assert(is_digit(digits.last()));
        lemma_decimal_least(digits.drop_last());
    }
}

/// Reads the vertex number that the description of a corner begins with.
pub fn corner_number(description: &Vec<u8>) -> (r: Option<usize>)
    ensures
        r == spec_corner_number(description@),
{
    let ghost bytes = description@;
    let start: usize = if description.len() > 0 && description[0] == PLUS {
        1
    } else {
        0
    };
    let mut k: usize = start;
    let mut value: usize = 0;
    while k < description.len() && description[k] != SLASH
        invariant
            bytes == description@,
            start <= k <= bytes.len(),
            start == 1 ==> bytes.len() > 0 && bytes[0] == PLUS,
            start == 0 ==> bytes.len() == 0 || bytes[0] != PLUS,
            start <= 1,
            forall|i: int| 0 <= i < k ==> #[trigger] bytes[i] != SLASH,
            all_digits(bytes.subrange(start as int, k as int)),
            value == decimal(bytes.subrange(start as int, k as int)),
        decreases bytes.len() - k,
    {
        let byte: u8 = description[k];
        proof {
            lemma_first_slash(bytes, 0, k as int);
        }
        let ghost end = first_slash(bytes, 0);
        let ghost digits = number_digits(bytes);
        assert(digits == bytes.subrange(start as int, end));
        assert(digits[k - start] == byte);
        if byte < ZERO || byte > ZERO + 9 {
            return None;
        }
        let digit: usize = (byte - ZERO) as usize;
        let ghost longer = bytes.subrange(start as int, k + 1);
        proof {
            assert(longer.drop_last() =~= bytes.subrange(start as int, k as int));
            assert(longer.last() == byte);
            assert(decimal(longer) == 10 * value + digit);
        }
        if value > (usize::MAX - digit) / 10 {
            proof {
                if all_digits(digits) {
                    assert(digits.subrange(0, k + 1 - start) =~= longer);
                    lemma_decimal_grows(digits, k + 1 - start);
                }
            }
            return None;
        }
        value = value * 10 + digit;
        k = k + 1;
        proof {
            assert forall|i: int| 0 <= i < longer.len() implies is_digit(#[trigger] longer[i]) by {
                if i < longer.len() - 1 {
                    assert(longer[i] == bytes.subrange(start as int, k - 1)[i]);
                }
            }
        }
    }
    proof {
        lemma_first_slash(bytes, 0, k as int);
    }
    if k == start {
        None
    } else {
        Some(value)
    }
}

} // verus!
