use vstd::prelude::*;

use crate::error::RegexError;

verus! {

/// The byte of `|`.
pub const PIPE: u8 = 0x7C;

/// The byte of `(`.
pub const OPEN_PAREN: u8 = 0x28;

/// The byte of `)`.
pub const CLOSE_PAREN: u8 = 0x29;

/// One UTF-8 code unit, kept as its raw bytes; two units are equal when
/// their bytes are.
#[derive(Clone, Debug, PartialEq, Eq, Hash)]
pub struct CodePoint {
    bytes: Vec<u8>,
}

impl View for CodePoint {
    type V = Seq<u8>;

    closed spec fn view(&self) -> Seq<u8> {
        self.bytes@
    }
}

/// The byte contents of a sequence of code units.
pub open spec fn units_of(s: Seq<CodePoint>) -> Seq<Seq<u8>> {
    s.map_values(|c: CodePoint| c@)
}

/// The byte contents of an optional code unit.
pub open spec fn unit_of(o: Option<CodePoint>) -> Option<Seq<u8>> {
    match o {
        Some(c) => Some(c@),
        None => None,
    }
}

impl CodePoint {
    /// The alternation sign `|`.
    pub fn pipe() -> (r: Self)
        ensures
            r@ == seq![PIPE],
    {
        Self { bytes: vec![PIPE] }
    }

    /// The opening parenthesis `(`.
    pub fn open_paren() -> (r: Self)
        ensures
            r@ == seq![OPEN_PAREN],
    {
        Self { bytes: vec![OPEN_PAREN] }
    }

    /// The closing parenthesis `)`.
    pub fn close_paren() -> (r: Self)
        ensures
            r@ == seq![CLOSE_PAREN],
    {
        Self { bytes: vec![CLOSE_PAREN] }
    }

    /// The raw bytes of this unit.
    pub fn bytes(&self) -> (r: &[u8])
        ensures
            r@ == self@,
    {
        self.bytes.as_slice()
    }

    /// A copy of this unit.
    pub fn duplicate(&self) -> (r: Self)
        ensures
            r@ == self@,
    {
        let bytes = self.bytes.clone();
        proof {
            assert(bytes@ =~= self.bytes@);
        }
        Self { bytes }
    }

    /// Whether two units hold the same bytes.
    pub fn same(&self, other: &CodePoint) -> (r: bool)
        ensures
            r == (self@ == other@),
    {
        if self.bytes.len() != other.bytes.len() {
            return false;
        }
        let mut i: usize = 0;
        while i < self.bytes.len()
            invariant
                self.bytes@.len() == other.bytes@.len(),
                0 <= i <= self.bytes@.len(),
                forall|k: int| 0 <= k < i ==> self.bytes@[k] == other.bytes@[k],
            decreases self.bytes@.len() - i,
        {
            if self.bytes[i] != other.bytes[i] {
                return false;
            }
            i = i + 1;
        }
        proof {
            assert(self.bytes@ =~= other.bytes@);
        }
        true
    }

    /// Whether this unit is the single byte `b`.
    pub fn is_byte(&self, b: u8) -> (r: bool)
        ensures
            r == (self@ == seq![b]),
    {
        let r = self.bytes.len() == 1 && self.bytes[0] == b;
        proof {
            if self.bytes@.len() == 1 && self.bytes@[0] == b {
                assert(self@ =~= seq![b]);
            }
        }
        r
    }
}

/// The length of the code unit that starts with `b0`, read from its high bits.
pub open spec fn unit_width(b0: u8) -> Option<usize> {
    if (b0 & 0x80u8) == 0x00u8 {
        Some(1)
    } else if (b0 & 0xE0u8) == 0xC0u8 {
        Some(2)
    } else if (b0 & 0xF0u8) == 0xE0u8 {
        Some(3)
    } else if (b0 & 0xF8u8) == 0xF0u8 {
        Some(4)
    } else {
        None
    }
}

/// Whether `b` has the continuation shape `10xxxxxx`.
pub open spec fn is_continuation(b: u8) -> bool {
    (b & 0xC0u8) == 0x80u8
}

/// The first fault among the continuation bytes `i .. width` of the unit that
/// starts at `p`, in reading order.
pub open spec fn continuation_fault(bytes: Seq<u8>, p: int, i: int, width: int) -> Option<
    RegexError,
>
    decreases width - i,
{
    if i >= width {
        None
    } else if p + i >= bytes.len() {
        Some(RegexError::TruncatedEncoding)
    } else if !is_continuation(bytes[p + i]) {
        Some(RegexError::InvalidEncoding)
    } else {
        continuation_fault(bytes, p, i + 1, width)
    }
}

/// Puts `units` in front of a successful segmentation.
pub open spec fn prefixed(units: Seq<Seq<u8>>, r: Result<Seq<Seq<u8>>, RegexError>) -> Result<
    Seq<Seq<u8>>,
    RegexError,
> {
    match r {
        Ok(rest) => Ok(units + rest),
        Err(e) => Err(e),
    }
}

/// The code units of `bytes` from position `p` on, or the first encoding fault.
pub open spec fn segment_from(bytes: Seq<u8>, p: int) -> Result<Seq<Seq<u8>>, RegexError>
    decreases bytes.len() - p,
    via segment_from_decreases
{
    if p < 0 || p >= bytes.len() {
        Ok(seq![])
    } else {
        match unit_width(bytes[p]) {
            None => Err(RegexError::InvalidEncoding),
            Some(w) => match continuation_fault(bytes, p, 1, w as int) {
                Some(e) => Err(e),
                None => prefixed(
                    seq![bytes.subrange(p, p + w)],
                    segment_from(bytes, p + w),
                ),
            },
        }
    }
}

proof fn lemma_no_fault_in_bounds(bytes: Seq<u8>, p: int, i: int, width: int)
    requires
        i <= width,
        continuation_fault(bytes, p, i, width) == None::<RegexError>,
    ensures
        p + width <= bytes.len() || i == width,
    decreases width - i,
{
    if i < width {
        lemma_no_fault_in_bounds(bytes, p, i + 1, width);
    }
}

#[via_fn]
proof fn segment_from_decreases(bytes: Seq<u8>, p: int) {
    if !(p < 0 || p >= bytes.len()) {
        lemma_width_bounds(bytes[p]);
        if let Some(w) = unit_width(bytes[p]) {
            if continuation_fault(bytes, p, 1, w as int) == None::<RegexError> {
                lemma_no_fault_in_bounds(bytes, p, 1, w as int);
            }
        }
    }
}

/// The code units of `bytes`, or the first encoding fault.
pub open spec fn segment(bytes: Seq<u8>) -> Result<Seq<Seq<u8>>, RegexError> {
    segment_from(bytes, 0)
}

fn utf8_size(b0: u8) -> (r: Option<usize>)
    ensures
        r == unit_width(b0),
{
    if (b0 & 0b1000_0000) == 0b0000_0000 {
        Some(1)
    } else if (b0 & 0b1110_0000) == 0b1100_0000 {
        Some(2)
    } else if (b0 & 0b1111_0000) == 0b1110_0000 {
        Some(3)
    } else if (b0 & 0b1111_1000) == 0b1111_0000 {
        Some(4)
    } else {
        None
    }
}

proof fn lemma_width_bounds(b0: u8)
    ensures
        unit_width(b0) matches Some(w) ==> 1 <= w <= 4,
{
}

/// Splits a byte buffer into its UTF-8 code units, keeping each unit's raw bytes.
pub fn bytes_to_codepoints(bytes: Vec<u8>) -> (r: Result<Vec<CodePoint>, RegexError>)
    ensures
        match r {
            Ok(v) => segment(bytes@) == Ok::<Seq<Seq<u8>>, RegexError>(units_of(v@)),
            Err(e) => segment(bytes@) == Err::<Seq<Seq<u8>>, RegexError>(e),
        },
{
    let mut code_points: Vec<CodePoint> = Vec::new();
    let mut pos: usize = 0;
    while pos < bytes.len()
        invariant
            0 <= pos <= bytes@.len(),
            segment(bytes@) == prefixed(units_of(code_points@), segment_from(bytes@, pos as int)),
        decreases bytes@.len() - pos,
    {
        let b0 = bytes[pos];
        let size = match utf8_size(b0) {
            Some(s) => s,
            None => return Err(RegexError::InvalidEncoding),
        };
        proof {
            lemma_width_bounds(b0);
        }
        let mut cp_bytes: Vec<u8> = Vec::new();
        cp_bytes.push(b0);
        let mut i: usize = 1;
        while i < size
            invariant
                1 <= i <= size <= 4,
                0 <= pos < bytes@.len(),
                pos + i <= bytes@.len(),
                unit_width(bytes@[pos as int]) == Some(size),
                segment(bytes@) == prefixed(
                    units_of(code_points@),
                    segment_from(bytes@, pos as int),
                ),
                continuation_fault(bytes@, pos as int, 1, size as int) == continuation_fault(
                    bytes@,
                    pos as int,
                    i as int,
                    size as int,
                ),
                cp_bytes@ =~= bytes@.subrange(pos as int, pos + i),
            decreases size - i,
        {
            if i >= bytes.len() - pos {
                return Err(RegexError::TruncatedEncoding);
            }
            let b = bytes[pos + i];
            if (b & 0b1100_0000) != 0b1000_0000 {
                return Err(RegexError::InvalidEncoding);
            }
            cp_bytes.push(b);
            i = i + 1;
        }
        let ghost before = units_of(code_points@);
        let cp = CodePoint { bytes: cp_bytes };
        code_points.push(cp);
        proof {
            assert(units_of(code_points@) =~= before.push(cp@));
            let rest = segment_from(bytes@, pos + size);
            match rest {
                Ok(t) => {
                    assert(before + (seq![cp@] + t) =~= before.push(cp@) + t);
                },
                Err(_) => {},
            }
        }
        pos = pos + size;
    }
    proof {
        assert(units_of(code_points@) + seq![] =~= units_of(code_points@));
    }
    Ok(code_points)
}

/// A read position over a sequence of code units, which only moves forward.
pub struct Parser {
    code_points: Vec<CodePoint>,
    index: usize,
}

impl Parser {
    /// The code units that the cursor walks over.
    pub closed spec fn units(&self) -> Seq<Seq<u8>> {
        units_of(self.code_points@)
    }

    /// The position of the next unit.
    pub closed spec fn pos(&self) -> int {
        self.index as int
    }

    /// The position never passes the end.
    pub open spec fn wf(&self) -> bool {
        0 <= self.pos() <= self.units().len()
    }

    /// A cursor at the first of `code_points`.
    pub fn new(code_points: Vec<CodePoint>) -> (r: Self)
        ensures
            r.wf(),
            r.units() == units_of(code_points@),
            r.pos() == 0,
    {
        Self { code_points, index: 0 }
    }

    /// A cursor at the first code unit of `bytes`; fails as
    /// [`bytes_to_codepoints`] does.
    pub fn from_bytes(bytes: Vec<u8>) -> (r: Result<Self, RegexError>)
        ensures
            match r {
                Ok(p) => p.wf() && p.pos() == 0 && segment(bytes@) == Ok::<
                    Seq<Seq<u8>>,
                    RegexError,
                >(p.units()),
                Err(e) => segment(bytes@) == Err::<Seq<Seq<u8>>, RegexError>(e),
            },
    {
        match bytes_to_codepoints(bytes) {
            Ok(code_points) => Ok(Self::new(code_points)),
            Err(e) => Err(e),
        }
    }

    /// The unit at the position, without moving; `None` at the end.
    pub fn peek(&self) -> (r: Option<CodePoint>)
        requires
            self.wf(),
        ensures
            unit_of(r) == (if self.pos() < self.units().len() {
                Some(self.units()[self.pos()])
            } else {
                None
            }),
    {
        if self.index >= self.code_points.len() {
            None
        } else {
            Some(self.code_points[self.index].duplicate())
        }
    }

    /// The unit at the position, moving past it; `None`, without moving, at
    /// the end.
    pub fn consume(&mut self) -> (r: Option<CodePoint>)
        requires
            old(self).wf(),
        ensures
            final(self).wf(),
            final(self).units() == old(self).units(),
            unit_of(r) == (if old(self).pos() < old(self).units().len() {
                Some(old(self).units()[old(self).pos()])
            } else {
                None
            }),
            final(self).pos() == (if old(self).pos() < old(self).units().len() {
                old(self).pos() + 1
            } else {
                old(self).pos()
            }),
    {
        if self.index >= self.code_points.len() {
            None
        } else {
            let cp = self.code_points[self.index].duplicate();
            self.index = self.index + 1;
            Some(cp)
        }
    }
}

/// Every all-ASCII buffer splits into exactly one code unit per byte.
pub proof fn lemma_ascii_one_unit_per_byte(bytes: Seq<u8>)
    requires
        forall|i: int| 0 <= i < bytes.len() ==> bytes[i] < 128,
    ensures
        segment(bytes) matches Ok(units) && units.len() == bytes.len(),
{
    lemma_ascii_from(bytes, 0);
}

proof fn lemma_ascii_from(bytes: Seq<u8>, p: int)
    requires
        0 <= p <= bytes.len(),
        forall|i: int| 0 <= i < bytes.len() ==> bytes[i] < 128,
    ensures
        segment_from(bytes, p) matches Ok(units) && units.len() == bytes.len() - p,
    decreases bytes.len() - p,
{
    if p < bytes.len() {
        let b0 = bytes[p];
        assert(b0 < 128 ==> (b0 & 0x80u8) == 0x00u8) by (bit_vector);
        lemma_ascii_from(bytes, p + 1);
        assert(continuation_fault(bytes, p, 1, 1) == None::<RegexError>);
    }
}

} // verus!
