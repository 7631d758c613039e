//! Symmetry classes of square tiles and the action of the square's eight symmetries on the
//! distinct orientations of a tile.
use vstd::prelude::*;

verus! {

/// How a tile looks under quarter turns and mirroring, named after a letter with the same
/// symmetry. The class decides how many distinct orientations the tile has.
#[derive(Clone, Copy, Debug, PartialEq, Eq, Structural)]
pub enum Symmetry {
    /// Four orientations; a mirror image is one of the turns of a neighbouring orientation.
    L,
    /// Four orientations; the upright and the upside-down one are their own mirror images.
    T,
    /// Two orientations, each its own mirror image.
    I,
    /// Two orientations that mirroring exchanges.
    Slash,
    /// No symmetry: four turns and their four mirror images are all distinct.
    F,
    /// Full symmetry: a single orientation.
    X,
}

impl Symmetry {
    /// The class that a configuration string names: its first character decides, and anything
    /// but `L`, `T`, `I`, `\` and `F` (the empty string too) is the fully symmetric class.
    pub open spec fn spec_of(letter: Seq<char>) -> Symmetry {
        if letter.len() == 0 {
            Symmetry::X
        } else if letter[0] == 'L' {
            Symmetry::L
        } else if letter[0] == 'T' {
            Symmetry::T
        } else if letter[0] == 'I' {
            Symmetry::I
        } else if letter[0] == '\\' {
            Symmetry::Slash
        } else if letter[0] == 'F' {
            Symmetry::F
        } else {
            Symmetry::X
        }
    }

    pub fn of(letter: &str) -> (class: Symmetry)
        ensures
            class == Symmetry::spec_of(letter@),
    {
        if letter.unicode_len() == 0 {
            return Symmetry::X;
        }
        let first = letter.get_char(0);
        if first == 'L' {
            Symmetry::L
        } else if first == 'T' {
            Symmetry::T
        } else if first == 'I' {
            Symmetry::I
        } else if first == '\\' {
            Symmetry::Slash
        } else if first == 'F' {
            Symmetry::F
        } else {
            Symmetry::X
        }
    }

    /// The number of distinct orientations of a tile of this class.
    pub open spec fn spec_cardinality(self) -> int {
        match self {
            Symmetry::L | Symmetry::T => 4,
            Symmetry::I | Symmetry::Slash => 2,
            Symmetry::F => 8,
            Symmetry::X => 1,
        }
    }

    pub fn cardinality(self) -> (c: usize)
        ensures
            c == self.spec_cardinality(),
            1 <= c <= 8,
    {
        match self {
            Symmetry::L | Symmetry::T => 4,
            Symmetry::I | Symmetry::Slash => 2,
            Symmetry::F => 8,
            Symmetry::X => 1,
        }
    }

    /// The orientation that a quarter turn makes of orientation `i`.
    pub open spec fn spec_rotate(self, i: int) -> int {
        match self {
            Symmetry::L | Symmetry::T => (i + 1) % 4,
            Symmetry::I | Symmetry::Slash => 1 - i,
            Symmetry::F => if i < 4 {
                (i + 1) % 4
            } else {
                4 + (i - 1) % 4
            },
            Symmetry::X => i,
        }
    }

    pub fn rotate(self, i: usize) -> (r: usize)
        requires
            i < self.spec_cardinality(),
        ensures
            r == self.spec_rotate(i as int),
            r < self.spec_cardinality(),
    {
        match self {
            Symmetry::L | Symmetry::T => (i + 1) % 4,
            Symmetry::I | Symmetry::Slash => 1 - i,
            Symmetry::F => if i < 4 {
                (i + 1) % 4
            } else {
                4 + (i - 1) % 4
            },
            Symmetry::X => i,
        }
    }

    /// The orientation that mirroring makes of orientation `i`.
    pub open spec fn spec_reflect(self, i: int) -> int {
        match self {
            Symmetry::L => if i % 2 == 0 {
                i + 1
            } else {
                i - 1
            },
            Symmetry::T => if i % 2 == 0 {
                i
            } else {
                4 - i
            },
            Symmetry::I => i,
            Symmetry::Slash => 1 - i,
            Symmetry::F => if i < 4 {
                i + 4
            } else {
                i - 4
            },
            Symmetry::X => i,
        }
    }

    pub fn reflect(self, i: usize) -> (r: usize)
        requires
            i < self.spec_cardinality(),
        ensures
            r == self.spec_reflect(i as int),
            r < self.spec_cardinality(),
    {
        match self {
            Symmetry::L => if i % 2 == 0 {
                i + 1
            } else {
                i - 1
            },
            Symmetry::T => if i % 2 == 0 {
                i
            } else {
                4 - i
            },
            Symmetry::I => i,
            Symmetry::Slash => 1 - i,
            Symmetry::F => if i < 4 {
                i + 4
            } else {
                i - 4
            },
            Symmetry::X => i,
        }
    }

    /// What symmetry `k` of the square makes of orientation `i`. Symmetries 0 to 3 are the
    /// turns by that many quarters; symmetries 4 to 7 are the mirror images of those four.
    pub open spec fn spec_image(self, i: int, k: int) -> int {
        let r1 = self.spec_rotate(i);
        let r2 = self.spec_rotate(r1);
        let r3 = self.spec_rotate(r2);
        if k == 0 {
            i
        } else if k == 1 {
            r1
        } else if k == 2 {
            r2
        } else if k == 3 {
            r3
        } else if k == 4 {
            self.spec_reflect(i)
        } else if k == 5 {
            self.spec_reflect(r1)
        } else if k == 6 {
            self.spec_reflect(r2)
        } else {
            self.spec_reflect(r3)
        }
    }

    /// The row of the action table for orientation `i` of a tile whose orientations start
    /// at index `base`.
    pub fn orbit(self, i: usize, base: usize) -> (row: [usize; 8])
        requires
            i < self.spec_cardinality(),
            base + self.spec_cardinality() <= usize::MAX,
        ensures
            forall|k: int| 0 <= k < 8 ==> #[trigger] row[k] == base + self.spec_image(i as int, k),
    {
        let r1 = self.rotate(i);
        let r2 = self.rotate(r1);
        let r3 = self.rotate(r2);
        let m0 = self.reflect(i);
        let m1 = self.reflect(r1);
        let m2 = self.reflect(r2);
        let m3 = self.reflect(r3);
        let row: [usize; 8] = [
            base + i,
            base + r1,
            base + r2,
            base + r3,
            base + m0,
            base + m1,
            base + m2,
            base + m3,
        ];
        assert(row[0] == base + self.spec_image(i as int, 0));
        assert(row[1] == base + self.spec_image(i as int, 1));
        assert(row[2] == base + self.spec_image(i as int, 2));
        assert(row[3] == base + self.spec_image(i as int, 3));
        assert(row[4] == base + self.spec_image(i as int, 4));
        assert(row[5] == base + self.spec_image(i as int, 5));
        assert(row[6] == base + self.spec_image(i as int, 6));
        assert(row[7] == base + self.spec_image(i as int, 7));
        row
    }
}

/// Every symmetry keeps an orientation of a class among the orientations of that class.
pub proof fn lemma_orbit_stays_in_class(class: Symmetry, i: int, k: int)
    requires
        0 <= i < class.spec_cardinality(),
        0 <= k < 8,
    ensures
        0 <= class.spec_image(i, k) < class.spec_cardinality(),
        class.spec_image(i, 0) == i,
{
}

} // verus!
