//! Static search configuration: which layers of a workbook are searched,
//! and the output mode and color choice.

use vstd::prelude::*;

verus! {

/// The set of layers searched, one bit per layer: display `0b0001`,
/// cached `0b0010`, comment `0b0100`, formula `0b1000`.
#[derive(Debug, Clone, Copy, PartialEq, Eq, Structural)]
pub struct LayerSet {
    bits: u8,
}

/// Bit of the display layer.
pub open spec fn display_bit() -> u8 {
    1u8
}

/// Bit of the cached-formula-result layer.
pub open spec fn cached_bit() -> u8 {
    2u8
}

/// Bit of the comment layer.
pub open spec fn comment_bit() -> u8 {
    4u8
}

/// Bit of the formula-text layer.
pub open spec fn formula_bit() -> u8 {
    8u8
}

proof fn lemma_or_bits(a: u8, b: u8)
    by (bit_vector)
    ensures
        ((a | b) & 1u8 == 1u8) == (a & 1u8 == 1u8 || b & 1u8 == 1u8),
        ((a | b) & 2u8 == 2u8) == (a & 2u8 == 2u8 || b & 2u8 == 2u8),
        ((a | b) & 4u8 == 4u8) == (a & 4u8 == 4u8 || b & 4u8 == 4u8),
        ((a | b) & 8u8 == 8u8) == (a & 8u8 == 8u8 || b & 8u8 == 8u8),
{
}

/// A layer is in the union of two sets exactly when it is in one of them.
pub proof fn lemma_union_has_layer(a: LayerSet, b: LayerSet, union: LayerSet)
    requires
        union.bits_of() == a.bits_of() | b.bits_of(),
    ensures
        union.has(display_bit()) == (a.has(display_bit()) || b.has(display_bit())),
        union.has(cached_bit()) == (a.has(cached_bit()) || b.has(cached_bit())),
        union.has(comment_bit()) == (a.has(comment_bit()) || b.has(comment_bit())),
        union.has(formula_bit()) == (a.has(formula_bit()) || b.has(formula_bit())),
{
    lemma_or_bits(a.bits_of(), b.bits_of());
}

impl LayerSet {
    /// The raw bits.
    pub closed spec fn bits_of(self) -> u8 {
        self.bits
    }

    /// Every bit of `flag` is set.
    pub open spec fn has(self, flag: u8) -> bool {
        self.bits_of() & flag == flag
    }

    pub fn empty() -> (r: LayerSet)
        ensures
            r.bits_of() == 0,
    {
        LayerSet { bits: 0 }
    }

    pub fn display() -> (r: LayerSet)
        ensures
            r.bits_of() == display_bit(),
    {
        LayerSet { bits: 1 }
    }

    pub fn cached() -> (r: LayerSet)
        ensures
            r.bits_of() == cached_bit(),
    {
        LayerSet { bits: 2 }
    }

    pub fn comment() -> (r: LayerSet)
        ensures
            r.bits_of() == comment_bit(),
    {
        LayerSet { bits: 4 }
    }

    pub fn formula() -> (r: LayerSet)
        ensures
            r.bits_of() == formula_bit(),
    {
        LayerSet { bits: 8 }
    }

    /// Both sets together.
    pub fn union(self, other: LayerSet) -> (r: LayerSet)
        ensures
            r.bits_of() == self.bits_of() | other.bits_of(),
    {
        LayerSet { bits: self.bits | other.bits }
    }

    /// Add `other` to this set.
    pub fn insert(&mut self, other: LayerSet)
        ensures
            final(self).bits_of() == old(self).bits_of() | other.bits_of(),
    {
        self.bits = self.bits | other.bits;
    }

    /// Every layer of `other` is in this set.
    pub fn contains(self, other: LayerSet) -> (r: bool)
        ensures
            r == self.has(other.bits_of()),
    {
        self.bits & other.bits == other.bits
    }

    /// Default match pool: display + cached + comments. Formula text is
    /// *not* in the default — `--formula` adds it. Hidden sheets/rows/cols
    /// are included via `include_hidden` (separate axis from layers).
    pub fn defaults() -> (r: LayerSet)
        ensures
            r.has(display_bit()),
            r.has(cached_bit()),
            r.has(comment_bit()),
            !r.has(formula_bit()),
    {
        let r = LayerSet { bits: 7 };
        assert(7u8 & 1u8 == 1u8 && 7u8 & 2u8 == 2u8 && 7u8 & 4u8 == 4u8 && 7u8 & 8u8 != 8u8)
            by (bit_vector);
        r
    }
}

/// The layer a piece of cell text came from.
#[derive(Debug, Clone, Copy, PartialEq, Eq, Hash, Structural)]
pub enum Layer {
    Display,
    Cached,
    Formula,
    Comment,
}

/// The name of a layer as printed and serialized.
pub open spec fn layer_name(l: Layer) -> Seq<char> {
    match l {
        Layer::Display => seq!['d', 'i', 's', 'p', 'l', 'a', 'y'],
        Layer::Cached => seq!['c', 'a', 'c', 'h', 'e', 'd'],
        Layer::Formula => seq!['f', 'o', 'r', 'm', 'u', 'l', 'a'],
        Layer::Comment => seq!['c', 'o', 'm', 'm', 'e', 'n', 't'],
    }
}

impl Layer {
    pub fn as_str(self) -> (r: &'static str)
        ensures
            r@ == layer_name(self),
    {
        match self {
            Layer::Display => {
                proof {
                    reveal_strlit("display");
                }
                "display"
            },
            Layer::Cached => {
                proof {
                    reveal_strlit("cached");
                }
                "cached"
            },
            Layer::Formula => {
                proof {
                    reveal_strlit("formula");
                }
                "formula"
            },
            Layer::Comment => {
                proof {
                    reveal_strlit("comment");
                }
                "comment"
            },
        }
    }
}

#[derive(Debug, Clone, Copy, PartialEq, Eq, Structural)]
pub enum OutputMode {
    Pretty,
    Json,
    CountOnly,
    FilesOnly,
}

#[derive(Debug, Clone, Copy, PartialEq, Eq, Structural)]
pub enum ColorChoice {
    Auto,
    Always,
    Never,
}

} // verus!
