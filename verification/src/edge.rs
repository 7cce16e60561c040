//! The eight edge markings, their four-bit codes, their one-hot codes and the
//! complement relation that says which two markings fit together.

use vstd::prelude::*;

verus! {

/// One marking on a side of a tile: a hole (`H…`) or a protrusion (`P…`) of
/// one of four shapes (octagon, cross, inward arrow, outward arrow).
#[derive(Copy, Clone, Debug, PartialEq, Eq, Structural)]
pub enum Edge {
    HO,
    HC,
    HI,
    HA,
    PO,
    PC,
    PI,
    PA,
}

/// Whether `code` is the four-bit code of one of the eight markings.
pub open spec fn is_edge_code(code: u8) -> bool {
    code <= 3 || (12 <= code && code <= 15)
}

/// The marking that a valid four-bit code stands for.
pub open spec fn edge_of(code: u8) -> Edge {
    if code == 0 {
        Edge::HO
    } else if code == 1 {
        Edge::HC
    } else if code == 2 {
        Edge::HI
    } else if code == 3 {
        Edge::HA
    } else if code == 15 {
        Edge::PO
    } else if code == 14 {
        Edge::PC
    } else if code == 12 {
        Edge::PI
    } else {
        Edge::PA
    }
}

/// The complement of a four-bit code: every bit of the nibble inverted.
pub open spec fn complement_code(code: u8) -> u8 {
    !code & 0x0f
}

/// A byte with its two nibbles exchanged.
pub open spec fn swap_byte_nibbles(b: u8) -> u8 {
    (b >> 4) | ((b & 0x0f) << 4)
}

impl Edge {
    /// The four-bit code of a marking. A protrusion's code is the inverted
    /// code of the hole it fits into.
    pub open spec fn code(self) -> u8 {
        match self {
            Edge::HO => 0,
            Edge::HC => 1,
            Edge::HI => 2,
            Edge::HA => 3,
            Edge::PO => 15,
            Edge::PC => 14,
            Edge::PI => 12,
            Edge::PA => 13,
        }
    }

    /// The marking that fits against this one. Inward and outward arrows
    /// change places: an inward-arrow hole takes an outward-arrow protrusion.
    pub open spec fn opposite(self) -> Edge {
        match self {
            Edge::HO => Edge::PO,
            Edge::HC => Edge::PC,
            Edge::HI => Edge::PA,
            Edge::HA => Edge::PI,
            Edge::PO => Edge::HO,
            Edge::PC => Edge::HC,
            Edge::PI => Edge::HA,
            Edge::PA => Edge::HI,
        }
    }

    /// The one-hot code of a marking: holes in the high nibble, and each
    /// protrusion in the low nibble at the place of the hole it fits.
    pub open spec fn mask(self) -> u8 {
        match self {
            Edge::HO => 0x10,
            Edge::HC => 0x20,
            Edge::HI => 0x40,
            Edge::HA => 0x80,
            Edge::PO => 0x01,
            Edge::PC => 0x02,
            Edge::PA => 0x04,
            Edge::PI => 0x08,
        }
    }

    /// The four-bit code of the marking.
    pub fn encode(self) -> (code: u8)
        ensures
            code == self.code(),
            is_edge_code(code),
            edge_of(code) == self,
    {
        match self {
            Edge::HO => 0,
            Edge::HC => 1,
            Edge::HI => 2,
            Edge::HA => 3,
            Edge::PO => 15,
            Edge::PC => 14,
            Edge::PI => 12,
            Edge::PA => 13,
        }
    }

    /// The marking that fits against this one.
    pub fn complement(self) -> (e: Edge)
        ensures
            e == self.opposite(),
    {
        match self {
            Edge::HO => Edge::PO,
            Edge::HC => Edge::PC,
            Edge::HI => Edge::PA,
            Edge::HA => Edge::PI,
            Edge::PO => Edge::HO,
            Edge::PC => Edge::HC,
            Edge::PI => Edge::HA,
            Edge::PA => Edge::HI,
        }
    }

    /// The one-hot code of the marking.
    pub fn one_hot(self) -> (m: u8)
        ensures
            m == self.mask(),
    {
        match self {
            Edge::HO => 0x10,
            Edge::HC => 0x20,
            Edge::HI => 0x40,
            Edge::HA => 0x80,
            Edge::PO => 0x01,
            Edge::PC => 0x02,
            Edge::PA => 0x04,
            Edge::PI => 0x08,
        }
    }
}

/// The marking of a one-hot code, or `None` for a byte that is the one-hot
/// code of none.
pub fn from_one_hot(m: u8) -> (r: Option<Edge>)
    ensures
        match r {
            Some(e) => e.mask() == m,
            None => forall|e: Edge| e.mask() != m,
        },
{
    if m == 0x10 {
        Some(Edge::HO)
    } else if m == 0x20 {
        Some(Edge::HC)
    } else if m == 0x40 {
        Some(Edge::HI)
    } else if m == 0x80 {
        Some(Edge::HA)
    } else if m == 0x01 {
        Some(Edge::PO)
    } else if m == 0x02 {
        Some(Edge::PC)
    } else if m == 0x04 {
        Some(Edge::PA)
    } else if m == 0x08 {
        Some(Edge::PI)
    } else {
        None
    }
}

/// The marking of a four-bit code, or `None` for a code that stands for none.
pub fn try_decode(code: u8) -> (r: Option<Edge>)
    ensures
        r.is_some() <==> is_edge_code(code),
        r.is_some() ==> r.unwrap() == edge_of(code) && r.unwrap().code() == code,
{
    if code == 0 {
        Some(Edge::HO)
    } else if code == 1 {
        Some(Edge::HC)
    } else if code == 2 {
        Some(Edge::HI)
    } else if code == 3 {
        Some(Edge::HA)
    } else if code == 15 {
        Some(Edge::PO)
    } else if code == 14 {
        Some(Edge::PC)
    } else if code == 12 {
        Some(Edge::PI)
    } else if code == 13 {
        Some(Edge::PA)
    } else {
        None
    }
}

/// The marking of a valid four-bit code.
pub fn decode(code: u8) -> (e: Edge)
    requires
        is_edge_code(code),
    ensures
        e == edge_of(code),
        e.code() == code,
{
    match try_decode(code) {
        Some(e) => e,
        None => Edge::HO,
    }
}

/// The marking held in the low nibble of `x`; the high nibble is ignored.
pub fn nibble_to_edge(x: u8) -> (e: Edge)
    requires
        is_edge_code(x & 0x0f),
    ensures
        e == edge_of(x & 0x0f),
        e.code() == x & 0x0f,
{
    decode(x & 0x0f)
}

/// The code that fits against `code`.
pub fn complement(code: u8) -> (r: u8)
    ensures
        r == complement_code(code),
        r <= 15,
        is_edge_code(code) ==> r == edge_of(code).opposite().code(),
{
    proof {
        lemma_complement_code_of_edge(code);
    }
    !code & 0x0f
}

proof fn lemma_complement_code_of_edge(code: u8)
    ensures
        complement_code(code) <= 15,
        is_edge_code(code) ==> complement_code(code) == edge_of(code).opposite().code(),
{
    assert((!code & 0x0f) <= 15 && (code <= 15 ==> (!code & 0x0f) == 15 - code))
        by (bit_vector);
}

/// Decoding an encoded marking gives the marking back, and encoding a decoded
/// code gives the code back.
pub proof fn lemma_code_round_trip(e: Edge, code: u8)
    ensures
        is_edge_code(e.code()),
        edge_of(e.code()) == e,
        is_edge_code(code) ==> edge_of(code).code() == code,
{
}

/// The complement is an involution without a fixed point, on markings and on
/// their codes alike, and the one on codes is the one on markings.
pub proof fn lemma_complement_involution(e: Edge)
    ensures
        e.opposite().opposite() == e,
        e.opposite() != e,
        complement_code(e.code()) == e.opposite().code(),
        complement_code(complement_code(e.code())) == e.code(),
        complement_code(e.code()) != e.code(),
{
    lemma_complement_code_of_edge(e.code());
    lemma_complement_code_of_edge(e.opposite().code());
}

/// On one-hot codes the complement is an exchange of the two nibbles, and two
/// markings fit exactly when one mask meets the other's exchanged mask.
pub proof fn lemma_mask_complement(a: Edge, b: Edge)
    ensures
        swap_byte_nibbles(a.mask()) == a.opposite().mask(),
        (a.mask() & swap_byte_nibbles(b.mask()) != 0) <==> a == b.opposite(),
        a.mask() != 0,
{
    assert(swap_byte_nibbles(0x10) == 0x01 && swap_byte_nibbles(0x20) == 0x02
        && swap_byte_nibbles(0x40) == 0x04 && swap_byte_nibbles(0x80) == 0x08
        && swap_byte_nibbles(0x01) == 0x10 && swap_byte_nibbles(0x02) == 0x20
        && swap_byte_nibbles(0x04) == 0x40 && swap_byte_nibbles(0x08) == 0x80)
        by (bit_vector);
    let x = a.mask();
    let y = b.opposite().mask();
    assert((x == 1 || x == 2 || x == 4 || x == 8 || x == 16 || x == 32 || x == 64 || x == 128)
        && (y == 1 || y == 2 || y == 4 || y == 8 || y == 16 || y == 32 || y == 64 || y == 128)
        ==> ((x & y != 0) <==> x == y)) by (bit_vector);
}

} // verus!
