//! Query payloads and per-index search controls.

use crate::error::{Error, ErrorCode, Result};
use crate::text::{is_blank, spec_is_blank};
use vstd::prelude::*;
use vstd::slice::*;
use vstd::string::*;

verus! {

/// DiskANN search controls.
#[derive(Debug, Clone, Copy, PartialEq, Eq, Structural)]
pub struct DiskannQueryParams {
    pub list_size: i32,
}

impl DiskannQueryParams {
    /// Controls with the given candidate list size.
    pub fn new(list_size: i32) -> (r: Self)
        ensures
            r.list_size == list_size,
    {
        Self { list_size }
    }

    /// Sets the candidate list size; it must be positive.
    pub fn set_list_size(&mut self, value: i32) -> (r: Result<()>)
        ensures
            value > 0 ==> r is Ok && final(self).list_size == value,
            value <= 0 ==> (r matches Err(e) && e.code == ErrorCode::InvalidArgument)
                && *final(self) == *old(self),
    {
        if value <= 0 {
            return Err(Error::invalid_argument("DiskANN list_size must be positive"));
        }
        self.list_size = value;
        Ok(())
    }

    /// The candidate list size.
    pub fn list_size(&self) -> (r: i32)
        ensures
            r == self.list_size,
    {
        self.list_size
    }
}

/// The operator that joins analyzed full-text terms.
#[derive(Debug, Clone, Copy, PartialEq, Eq, Structural)]
pub enum FtsDefaultOperator {
    Or,
    And,
}

/// ASCII letters folded to lower case; other characters unchanged.
pub open spec fn ascii_lower(c: char) -> char {
    if 'A' <= c <= 'Z' {
        ((c as int) + 32) as char
    } else {
        c
    }
}

/// Whether `text`, with ASCII letters folded to lower case, is `word`.
pub open spec fn ascii_caseless_eq(text: Seq<char>, word: Seq<char>) -> bool {
    text.len() == word.len() && forall|i: int|
        0 <= i < text.len() ==> ascii_lower(#[trigger] text[i]) == word[i]
}

/// Case-insensitive ASCII comparison of `text` with a lower-case `word`.
pub fn matches_ascii_caseless(text: &str, word: &str) -> (r: bool)
    ensures
        r == ascii_caseless_eq(text@, word@),
{
    let mut expected: Vec<char> = Vec::new();
    for c in iter: word.chars()
        invariant
            iter.seq() == word@,
            expected@ == word@.subrange(0, iter.index() as int),
    {
        expected.push(c);
        proof {
            assert(expected@ =~= word@.subrange(0, iter.index() + 1));
        }
    }
    proof {
        assert(expected@ =~= word@);
    }
    let mut position: usize = 0;
    for c in iter: text.chars()
        invariant
            iter.seq() == text@,
            position == iter.index(),
            expected@ == word@,
            position <= expected@.len(),
            forall|i: int| 0 <= i < position ==> ascii_lower(#[trigger] text@[i]) == word@[i],
    {
        if position >= expected.len() {
            return false;
        }
        let lower = if 'A' <= c && c <= 'Z' {
            ((c as u8) + 32) as char
        } else {
            c
        };
        if lower != expected[position] {
            return false;
        }
        position = position + 1;
    }
    position == expected.len()
}

impl FtsDefaultOperator {
    /// Parses `or` or `and`, ignoring ASCII case.
    pub fn parse(value: &str) -> (r: Result<Self>)
        ensures
            ascii_caseless_eq(value@, "or"@) ==> r == Ok::<Self, Error>(FtsDefaultOperator::Or),
            ascii_caseless_eq(value@, "and"@) ==> r == Ok::<Self, Error>(
                FtsDefaultOperator::And,
            ),
            !ascii_caseless_eq(value@, "or"@) && !ascii_caseless_eq(value@, "and"@) ==> (
            r matches Err(e) && e.code == ErrorCode::InvalidArgument),
    {
        proof {
            reveal_strlit("or");
            reveal_strlit("and");
        }
        if matches_ascii_caseless(value, "or") {
            Ok(FtsDefaultOperator::Or)
        } else if matches_ascii_caseless(value, "and") {
            Ok(FtsDefaultOperator::And)
        } else {
            Err(Error::invalid_argument("FTS default operator must be AND or OR"))
        }
    }

    /// The canonical lower-case spelling.
    pub fn as_str(self) -> (r: &'static str)
        ensures
            self == FtsDefaultOperator::Or ==> r@ == "or"@,
            self == FtsDefaultOperator::And ==> r@ == "and"@,
    {
        match self {
            FtsDefaultOperator::Or => "or",
            FtsDefaultOperator::And => "and",
        }
    }
}

/// The canonical spelling an operator name parses to, if it parses.
pub open spec fn canonical_operator(value: Seq<char>) -> Option<Seq<char>> {
    if ascii_caseless_eq(value, "or"@) {
        Some("or"@)
    } else if ascii_caseless_eq(value, "and"@) {
        Some("and"@)
    } else {
        None
    }
}

/// Full-text query controls. Omitting `default_operator` keeps OR
/// semantics; `and` intersects all analyzed terms before scoring.
#[derive(Debug, Clone, PartialEq, Eq)]
pub struct FtsQueryParams {
    pub default_operator: Option<String>,
}

impl FtsQueryParams {
    /// Controls with an optional default operator, which must parse.
    pub fn new(default_operator: Option<&str>) -> (r: Result<Self>)
        ensures
            default_operator is None ==> (r matches Ok(p) && p.default_operator is None),
            default_operator matches Some(op) ==> match canonical_operator(op@) {
                Some(canonical) => r matches Ok(p) && p.default_operator matches Some(s) && s@
                    == canonical,
                None => r matches Err(e) && e.code == ErrorCode::InvalidArgument,
            },
    {
        let mut out = Self { default_operator: None };
        if let Some(value) = default_operator {
            out.set_default_operator(value)?;
        }
        Ok(out)
    }

    /// Sets the default operator to the canonical spelling of `op`; an
    /// unknown operator leaves the controls unchanged.
    pub fn set_default_operator(&mut self, op: &str) -> (r: Result<()>)
        ensures
            match canonical_operator(op@) {
                Some(canonical) => r is Ok && (final(self).default_operator matches Some(s) && s@
                    == canonical),
                None => (r matches Err(e) && e.code == ErrorCode::InvalidArgument) && *final(self)
                    == *old(self),
            },
    {
        let operator = FtsDefaultOperator::parse(op)?;
        self.default_operator = Some(operator.as_str().to_owned());
        Ok(())
    }

    /// The default operator, if set.
    pub fn default_operator(&self) -> (r: Option<String>)
        ensures
            r == self.default_operator,
    {
        self.default_operator.clone()
    }
}

/// A full-text expression: a query string or a match string.
#[derive(Debug, PartialEq, Eq)]
pub struct Fts {
    pub query_string: Option<String>,
    pub match_string: Option<String>,
}

impl Clone for Fts {
    /// A copy with the same strings.
    fn clone(&self) -> (r: Self)
        ensures
            r == *self,
    {
        Fts { query_string: self.query_string.clone(), match_string: self.match_string.clone() }
    }
}

impl Fts {
    /// An expression with neither string set.
    pub fn new() -> (r: Result<Self>)
        ensures
            r matches Ok(f) && f.query_string is None && f.match_string is None,
    {
        Ok(Self { query_string: None, match_string: None })
    }

    /// Sets the query string; a blank string is rejected and changes nothing.
    pub fn set_query_string(&mut self, query: &str) -> (r: Result<()>)
        ensures
            !spec_is_blank(query@) ==> r is Ok && (final(self).query_string matches Some(s) && s@
                == query@) && final(self).match_string == old(self).match_string,
            spec_is_blank(query@) ==> (r matches Err(e) && e.code == ErrorCode::InvalidArgument)
                && *final(self) == *old(self),
    {
        if is_blank(query) {
            return Err(Error::invalid_argument("FTS query string must not be empty"));
        }
        self.query_string = Some(query.to_owned());
        Ok(())
    }

    /// Sets the match string; a blank string is rejected and changes nothing.
    pub fn set_match_string(&mut self, query: &str) -> (r: Result<()>)
        ensures
            !spec_is_blank(query@) ==> r is Ok && (final(self).match_string matches Some(s) && s@
                == query@) && final(self).query_string == old(self).query_string,
            spec_is_blank(query@) ==> (r matches Err(e) && e.code == ErrorCode::InvalidArgument)
                && *final(self) == *old(self),
    {
        if is_blank(query) {
            return Err(Error::invalid_argument("FTS match string must not be empty"));
        }
        self.match_string = Some(query.to_owned());
        Ok(())
    }

    /// The query string, if set.
    pub fn query_string(&self) -> (r: Option<String>)
        ensures
            r == self.query_string,
    {
        self.query_string.clone()
    }

    /// The match string, if set.
    pub fn match_string(&self) -> (r: Option<String>)
        ensures
            r == self.match_string,
    {
        self.match_string.clone()
    }
}

/// Whether `bits` is the IEEE-754 pattern of a finite `f32` of either sign.
pub open spec fn f32_bits_finite(bits: u32) -> bool {
    bits % 0x8000_0000 < 0x7f80_0000
}

/// Whether `bits` is the pattern of a finite `f32` greater than zero.
pub open spec fn f32_bits_positive_finite(bits: u32) -> bool {
    0 < bits < 0x7f80_0000
}

/// Whether `bits` is the pattern of `+0.0` or `-0.0`.
pub open spec fn f32_bits_zero(bits: u32) -> bool {
    bits % 0x8000_0000 == 0
}

/// Whether every pattern in `values` is a finite `f32`.
pub open spec fn all_f32_finite(values: Seq<u32>) -> bool {
    forall|i: int| 0 <= i < values.len() ==> f32_bits_finite(#[trigger] values[i])
}

/// The bit pattern of `1.0f32`.
pub const F32_ONE_BITS: u32 = 0x3f80_0000;

/// Whether `bits` is the pattern of a finite `f32`.
pub fn f32_bits_is_finite(bits: u32) -> (r: bool)
    ensures
        r == f32_bits_finite(bits),
{
    let magnitude = bits & 0x7fff_ffff;
    assert(magnitude == bits % 0x8000_0000) by (bit_vector)
        requires
            magnitude == bits & 0x7fff_ffff,
    ;
    magnitude < 0x7f80_0000
}

/// Whether `bits` is the pattern of `+0.0` or `-0.0`.
pub fn f32_bits_is_zero(bits: u32) -> (r: bool)
    ensures
        r == f32_bits_zero(bits),
{
    let magnitude = bits & 0x7fff_ffff;
    assert(magnitude == bits % 0x8000_0000) by (bit_vector)
        requires
            magnitude == bits & 0x7fff_ffff,
    ;
    magnitude == 0
}

/// Whether every pattern in `values` is a finite `f32`.
pub fn all_finite(values: &[u32]) -> (r: bool)
    ensures
        r == all_f32_finite(values@),
{
    let mut i: usize = 0;
    while i < values.len()
        invariant
            i <= values@.len(),
            forall|j: int| 0 <= j < i ==> f32_bits_finite(#[trigger] values@[j]),
        decreases values@.len() - i,
    {
        if !f32_bits_is_finite(values[i]) {
            return false;
        }
        i = i + 1;
    }
    true
}

/// Pairs each index with the value at the same position.
pub fn zip_sparse(indices: &[u32], values: &[u32]) -> (r: Vec<(u32, u32)>)
    requires
        indices@.len() == values@.len(),
    ensures
        r@.len() == indices@.len(),
        forall|i: int| 0 <= i < r@.len() ==> #[trigger] r@[i] == (indices@[i], values@[i]),
{
    let mut out: Vec<(u32, u32)> = Vec::new();
    let mut i: usize = 0;
    while i < indices.len()
        invariant
            i <= indices@.len(),
            indices@.len() == values@.len(),
            out@.len() == i,
            forall|j: int| 0 <= j < i ==> #[trigger] out@[j] == (indices@[j], values@[j]),
        decreases indices@.len() - i,
    {
        out.push((indices[i], values[i]));
        i = i + 1;
    }
    out
}

/// HNSW search controls; the radius is kept as the bit pattern of an
/// `f32`.
#[derive(Debug, Clone, Copy, PartialEq, Eq, Structural)]
pub struct HnswQueryParams {
    pub ef: i32,
    pub radius_bits: u32,
    pub is_linear: bool,
    pub is_using_refiner: bool,
}

impl HnswQueryParams {
    /// Controls with the given fields.
    pub fn new(ef: i32, radius_bits: u32, is_linear: bool, is_using_refiner: bool) -> (r: Self)
        ensures
            r == (HnswQueryParams { ef, radius_bits, is_linear, is_using_refiner }),
    {
        Self { ef, radius_bits, is_linear, is_using_refiner }
    }

    /// Sets the candidate pool size; it must be positive.
    pub fn set_ef(&mut self, ef: i32) -> (r: Result<()>)
        ensures
            ef > 0 ==> r is Ok && *final(self) == (HnswQueryParams { ef, ..*old(self) }),
            ef <= 0 ==> (r matches Err(e) && e.code == ErrorCode::InvalidArgument) && *final(self)
                == *old(self),
    {
        if ef <= 0 {
            return Err(Error::invalid_argument("HNSW ef must be positive"));
        }
        self.ef = ef;
        Ok(())
    }

    /// The candidate pool size.
    pub fn ef(&self) -> (r: i32)
        ensures
            r == self.ef,
    {
        self.ef
    }
}

/// IVF search controls; the scale factor is kept as the bit pattern of an
/// `f32`.
#[derive(Debug, Clone, Copy, PartialEq, Eq, Structural)]
pub struct IvfQueryParams {
    pub nprobe: i32,
    pub is_using_refiner: bool,
    pub scale_factor_bits: u32,
}

impl IvfQueryParams {
    /// Controls with the given fields.
    pub fn new(nprobe: i32, is_using_refiner: bool, scale_factor_bits: u32) -> (r: Self)
        ensures
            r == (IvfQueryParams { nprobe, is_using_refiner, scale_factor_bits }),
    {
        Self { nprobe, is_using_refiner, scale_factor_bits }
    }

    /// Sets the number of probed lists; it must be positive.
    pub fn set_nprobe(&mut self, nprobe: i32) -> (r: Result<()>)
        ensures
            nprobe > 0 ==> r is Ok && *final(self) == (IvfQueryParams { nprobe, ..*old(self) }),
            nprobe <= 0 ==> (r matches Err(e) && e.code == ErrorCode::InvalidArgument)
                && *final(self) == *old(self),
    {
        if nprobe <= 0 {
            return Err(Error::invalid_argument("IVF nprobe must be positive"));
        }
        self.nprobe = nprobe;
        Ok(())
    }

    /// The number of probed lists.
    pub fn nprobe(&self) -> (r: i32)
        ensures
            r == self.nprobe,
    {
        self.nprobe
    }

    /// Sets the scale factor; it must be finite and positive.
    pub fn set_scale_factor(&mut self, value_bits: u32) -> (r: Result<()>)
        ensures
            f32_bits_positive_finite(value_bits) ==> r is Ok && *final(self) == (IvfQueryParams {
                scale_factor_bits: value_bits,
                ..*old(self)
            }),
            !f32_bits_positive_finite(value_bits) ==> (r matches Err(e) && e.code
                == ErrorCode::InvalidArgument) && *final(self) == *old(self),
    {
        if !(0 < value_bits && value_bits < 0x7f80_0000) {
            return Err(Error::invalid_argument("scale factor must be finite and positive"));
        }
        self.scale_factor_bits = value_bits;
        Ok(())
    }

    /// The scale factor's bit pattern.
    pub fn scale_factor(&self) -> (r: u32)
        ensures
            r == self.scale_factor_bits,
    {
        self.scale_factor_bits
    }
}

/// IVF RaBitQ search controls; radius and scale factor are kept as `f32`
/// bit patterns.
#[derive(Debug, Clone, Copy, PartialEq, Eq, Structural)]
pub struct IvfRabitqQueryParams {
    pub nprobe: i32,
    pub radius_bits: u32,
    pub is_linear: bool,
    pub is_using_refiner: bool,
    pub scale_factor_bits: u32,
}

impl IvfRabitqQueryParams {
    /// Controls with the given fields and a scale factor of `1.0`.
    pub fn new(nprobe: i32, radius_bits: u32, is_linear: bool, is_using_refiner: bool) -> (r:
        Self)
        ensures
            r == (IvfRabitqQueryParams {
                nprobe,
                radius_bits,
                is_linear,
                is_using_refiner,
                scale_factor_bits: F32_ONE_BITS,
            }),
    {
        Self { nprobe, radius_bits, is_linear, is_using_refiner, scale_factor_bits: F32_ONE_BITS }
    }

    /// Sets the number of probed lists; it must be positive.
    pub fn set_nprobe(&mut self, nprobe: i32) -> (r: Result<()>)
        ensures
            nprobe > 0 ==> r is Ok && *final(self) == (IvfRabitqQueryParams {
                nprobe,
                ..*old(self)
            }),
            nprobe <= 0 ==> (r matches Err(e) && e.code == ErrorCode::InvalidArgument)
                && *final(self) == *old(self),
    {
        if nprobe <= 0 {
            return Err(Error::invalid_argument("IVF RaBitQ nprobe must be positive"));
        }
        self.nprobe = nprobe;
        Ok(())
    }

    /// The number of probed lists.
    pub fn nprobe(&self) -> (r: i32)
        ensures
            r == self.nprobe,
    {
        self.nprobe
    }

    /// Sets the scale factor; it must be finite and positive.
    pub fn set_scale_factor(&mut self, value_bits: u32) -> (r: Result<()>)
        ensures
            f32_bits_positive_finite(value_bits) ==> r is Ok && *final(self) == (
            IvfRabitqQueryParams { scale_factor_bits: value_bits, ..*old(self) }),
            !f32_bits_positive_finite(value_bits) ==> (r matches Err(e) && e.code
                == ErrorCode::InvalidArgument) && *final(self) == *old(self),
    {
        if !(0 < value_bits && value_bits < 0x7f80_0000) {
            return Err(Error::invalid_argument("scale factor must be finite and positive"));
        }
        self.scale_factor_bits = value_bits;
        Ok(())
    }

    /// The scale factor's bit pattern.
    pub fn scale_factor(&self) -> (r: u32)
        ensures
            r == self.scale_factor_bits,
    {
        self.scale_factor_bits
    }
}

/// Flat-scan refinement controls; the scale factor is kept as an `f32` bit
/// pattern.
#[derive(Debug, Clone, Copy, PartialEq, Eq, Structural)]
pub struct FlatQueryParams {
    pub is_using_refiner: bool,
    pub scale_factor_bits: u32,
}

impl FlatQueryParams {
    /// Controls with the given fields.
    pub fn new(is_using_refiner: bool, scale_factor_bits: u32) -> (r: Self)
        ensures
            r == (FlatQueryParams { is_using_refiner, scale_factor_bits }),
    {
        Self { is_using_refiner, scale_factor_bits }
    }
}

/// The index family an ANN control set is meant for.
#[derive(Debug, Clone, Copy, PartialEq, Eq, Structural)]
pub enum ControlKind {
    Hnsw,
    Ivf,
    IvfRabitq,
    Diskann,
}

impl ControlKind {
    /// The name the control set records for its family.
    pub fn as_str(self) -> (r: &'static str)
        ensures
            self == ControlKind::Hnsw ==> r@ == "hnsw"@,
            self == ControlKind::Ivf ==> r@ == "ivf"@,
            self == ControlKind::IvfRabitq ==> r@ == "ivf_rabitq"@,
            self == ControlKind::Diskann ==> r@ == "diskann"@,
    {
        match self {
            ControlKind::Hnsw => "hnsw",
            ControlKind::Ivf => "ivf",
            ControlKind::IvfRabitq => "ivf_rabitq",
            ControlKind::Diskann => "diskann",
        }
    }
}

/// The per-query search controls, one optional slot per named parameter;
/// `f32` values are kept as bit patterns.
#[derive(Debug, Clone, Copy, PartialEq, Eq, Structural)]
pub struct QueryControls {
    pub index_type: Option<ControlKind>,
    pub ef: Option<i32>,
    pub nprobe: Option<i32>,
    pub is_linear: Option<bool>,
    pub is_using_refiner: Option<bool>,
    pub scale_factor_bits: Option<u32>,
    pub list_size: Option<i32>,
    pub radius_bits: Option<u32>,
    pub default_operator: Option<FtsDefaultOperator>,
}

/// No controls set.
pub open spec fn no_controls() -> QueryControls {
    QueryControls {
        index_type: None,
        ef: None,
        nprobe: None,
        is_linear: None,
        is_using_refiner: None,
        scale_factor_bits: None,
        list_size: None,
        radius_bits: None,
        default_operator: None,
    }
}

/// `target` with every ANN slot cleared; the radius and the full-text
/// operator stay.
pub open spec fn cleared_ann(target: QueryControls) -> QueryControls {
    QueryControls {
        index_type: None,
        ef: None,
        nprobe: None,
        is_linear: None,
        is_using_refiner: None,
        scale_factor_bits: None,
        list_size: None,
        ..target
    }
}

/// The radius slot for a radius: none for zero, else the pattern.
pub open spec fn radius_slot(bits: u32) -> Option<u32> {
    if f32_bits_zero(bits) {
        None
    } else {
        Some(bits)
    }
}

/// `base` with every slot `overlay` sets taken from `overlay`.
pub open spec fn merged_controls(base: QueryControls, overlay: QueryControls) -> QueryControls {
    QueryControls {
        index_type: if overlay.index_type is Some { overlay.index_type } else { base.index_type },
        ef: if overlay.ef is Some { overlay.ef } else { base.ef },
        nprobe: if overlay.nprobe is Some { overlay.nprobe } else { base.nprobe },
        is_linear: if overlay.is_linear is Some { overlay.is_linear } else { base.is_linear },
        is_using_refiner: if overlay.is_using_refiner is Some {
            overlay.is_using_refiner
        } else {
            base.is_using_refiner
        },
        scale_factor_bits: if overlay.scale_factor_bits is Some {
            overlay.scale_factor_bits
        } else {
            base.scale_factor_bits
        },
        list_size: if overlay.list_size is Some { overlay.list_size } else { base.list_size },
        radius_bits: if overlay.radius_bits is Some { overlay.radius_bits } else { base.radius_bits },
        default_operator: if overlay.default_operator is Some {
            overlay.default_operator
        } else {
            base.default_operator
        },
    }
}

impl QueryControls {
    /// No controls set.
    pub fn new() -> (r: Self)
        ensures
            r == no_controls(),
    {
        QueryControls {
            index_type: None,
            ef: None,
            nprobe: None,
            is_linear: None,
            is_using_refiner: None,
            scale_factor_bits: None,
            list_size: None,
            radius_bits: None,
            default_operator: None,
        }
    }

    /// Takes every slot `overlay` sets.
    pub fn extend(&mut self, overlay: &QueryControls)
        ensures
            *final(self) == merged_controls(*old(self), *overlay),
    {
        if overlay.index_type.is_some() {
            self.index_type = overlay.index_type;
        }
        if overlay.ef.is_some() {
            self.ef = overlay.ef;
        }
        if overlay.nprobe.is_some() {
            self.nprobe = overlay.nprobe;
        }
        if overlay.is_linear.is_some() {
            self.is_linear = overlay.is_linear;
        }
        if overlay.is_using_refiner.is_some() {
            self.is_using_refiner = overlay.is_using_refiner;
        }
        if overlay.scale_factor_bits.is_some() {
            self.scale_factor_bits = overlay.scale_factor_bits;
        }
        if overlay.list_size.is_some() {
            self.list_size = overlay.list_size;
        }
        if overlay.radius_bits.is_some() {
            self.radius_bits = overlay.radius_bits;
        }
        if overlay.default_operator.is_some() {
            self.default_operator = overlay.default_operator;
        }
    }
}

/// Clears every ANN slot, keeping the radius and the full-text operator.
pub fn clear_ann_query_controls(target: &mut QueryControls)
    ensures
        *final(target) == cleared_ann(*old(target)),
{
    target.index_type = None;
    target.ef = None;
    target.nprobe = None;
    target.is_linear = None;
    target.is_using_refiner = None;
    target.scale_factor_bits = None;
    target.list_size = None;
}

/// Records HNSW controls in place of any other ANN controls; `ef` must be
/// positive and the radius finite, and a zero radius clears the radius.
pub fn apply_hnsw_query_controls(target: &mut QueryControls, params: HnswQueryParams) -> (r:
    Result<()>)
    ensures
        params.ef > 0 && f32_bits_finite(params.radius_bits) ==> r is Ok && *final(target) == (
        QueryControls {
            index_type: Some(ControlKind::Hnsw),
            ef: Some(params.ef),
            is_linear: Some(params.is_linear),
            is_using_refiner: Some(params.is_using_refiner),
            radius_bits: radius_slot(params.radius_bits),
            ..cleared_ann(*old(target))
        }),
        !(params.ef > 0 && f32_bits_finite(params.radius_bits)) ==> (r matches Err(e) && e.code
            == ErrorCode::InvalidArgument) && *final(target) == *old(target),
{
    if params.ef <= 0 {
        return Err(Error::invalid_argument("HNSW ef must be positive"));
    }
    if !f32_bits_is_finite(params.radius_bits) {
        return Err(Error::invalid_argument("HNSW radius must be finite"));
    }
    clear_ann_query_controls(target);
    target.index_type = Some(ControlKind::Hnsw);
    target.ef = Some(params.ef);
    target.is_linear = Some(params.is_linear);
    target.is_using_refiner = Some(params.is_using_refiner);
    if f32_bits_is_zero(params.radius_bits) {
        target.radius_bits = None;
    } else {
        target.radius_bits = Some(params.radius_bits);
    }
    Ok(())
}

/// Records IVF controls in place of any other ANN controls; `nprobe` must
/// be positive and the scale factor finite and positive.
pub fn apply_ivf_query_controls(target: &mut QueryControls, params: IvfQueryParams) -> (r:
    Result<()>)
    ensures
        params.nprobe > 0 && f32_bits_positive_finite(params.scale_factor_bits) ==> r is Ok
            && *final(target) == (QueryControls {
            index_type: Some(ControlKind::Ivf),
            nprobe: Some(params.nprobe),
            is_using_refiner: Some(params.is_using_refiner),
            scale_factor_bits: Some(params.scale_factor_bits),
            ..cleared_ann(*old(target))
        }),
        !(params.nprobe > 0 && f32_bits_positive_finite(params.scale_factor_bits)) ==> (
        r matches Err(e) && e.code == ErrorCode::InvalidArgument) && *final(target) == *old(
            target,
        ),
{
    if params.nprobe <= 0 {
        return Err(Error::invalid_argument("IVF nprobe must be positive"));
    }
    if !(0 < params.scale_factor_bits && params.scale_factor_bits < 0x7f80_0000) {
        return Err(Error::invalid_argument("IVF scale factor must be finite and positive"));
    }
    clear_ann_query_controls(target);
    target.index_type = Some(ControlKind::Ivf);
    target.nprobe = Some(params.nprobe);
    target.is_using_refiner = Some(params.is_using_refiner);
    target.scale_factor_bits = Some(params.scale_factor_bits);
    Ok(())
}

/// Records IVF RaBitQ controls in place of any other ANN controls; `nprobe`
/// must be positive, the radius finite and the scale factor finite and
/// positive, and a zero radius clears the radius.
pub fn apply_ivf_rabitq_query_controls(
    target: &mut QueryControls,
    params: IvfRabitqQueryParams,
) -> (r: Result<()>)
    ensures
        params.nprobe > 0 && f32_bits_finite(params.radius_bits) && f32_bits_positive_finite(
            params.scale_factor_bits,
        ) ==> r is Ok && *final(target) == (QueryControls {
            index_type: Some(ControlKind::IvfRabitq),
            nprobe: Some(params.nprobe),
            is_linear: Some(params.is_linear),
            is_using_refiner: Some(params.is_using_refiner),
            scale_factor_bits: Some(params.scale_factor_bits),
            radius_bits: radius_slot(params.radius_bits),
            ..cleared_ann(*old(target))
        }),
        !(params.nprobe > 0 && f32_bits_finite(params.radius_bits) && f32_bits_positive_finite(
            params.scale_factor_bits,
        )) ==> (r matches Err(e) && e.code == ErrorCode::InvalidArgument) && *final(target)
            == *old(target),
{
    if params.nprobe <= 0 {
        return Err(Error::invalid_argument("IVF RaBitQ nprobe must be positive"));
    }
    if !f32_bits_is_finite(params.radius_bits) {
        return Err(Error::invalid_argument("IVF RaBitQ radius must be finite"));
    }
    if !(0 < params.scale_factor_bits && params.scale_factor_bits < 0x7f80_0000) {
        return Err(Error::invalid_argument("IVF RaBitQ scale factor must be finite and positive"));
    }
    clear_ann_query_controls(target);
    target.index_type = Some(ControlKind::IvfRabitq);
    target.nprobe = Some(params.nprobe);
    target.is_linear = Some(params.is_linear);
    target.is_using_refiner = Some(params.is_using_refiner);
    target.scale_factor_bits = Some(params.scale_factor_bits);
    if f32_bits_is_zero(params.radius_bits) {
        target.radius_bits = None;
    } else {
        target.radius_bits = Some(params.radius_bits);
    }
    Ok(())
}

/// Records DiskANN controls in place of any other ANN controls; the list
/// size must be positive.
pub fn apply_diskann_query_controls(target: &mut QueryControls, params: DiskannQueryParams) -> (r:
    Result<()>)
    ensures
        params.list_size > 0 ==> r is Ok && *final(target) == (QueryControls {
            index_type: Some(ControlKind::Diskann),
            list_size: Some(params.list_size),
            ..cleared_ann(*old(target))
        }),
        params.list_size <= 0 ==> (r matches Err(e) && e.code == ErrorCode::InvalidArgument)
            && *final(target) == *old(target),
{
    if params.list_size <= 0 {
        return Err(Error::invalid_argument("DiskANN list_size must be positive"));
    }
    clear_ann_query_controls(target);
    target.index_type = Some(ControlKind::Diskann);
    target.list_size = Some(params.list_size);
    Ok(())
}

/// The operator an operator name parses to, if it parses.
pub open spec fn parsed_operator(value: Seq<char>) -> Option<FtsDefaultOperator> {
    if ascii_caseless_eq(value, "or"@) {
        Some(FtsDefaultOperator::Or)
    } else if ascii_caseless_eq(value, "and"@) {
        Some(FtsDefaultOperator::And)
    } else {
        None
    }
}

/// Records the full-text default operator, or clears it when the controls
/// name none; an operator that does not parse is an error and changes
/// nothing.
pub fn apply_fts_query_controls(target: &mut QueryControls, params: FtsQueryParams) -> (r: Result<
    (),
>)
    ensures
        params.default_operator is None ==> r is Ok && *final(target) == (QueryControls {
            default_operator: None,
            ..*old(target)
        }),
        params.default_operator matches Some(value) ==> match parsed_operator(value@) {
            Some(operator) => r is Ok && *final(target) == (QueryControls {
                default_operator: Some(operator),
                ..*old(target)
            }),
            None => (r matches Err(e) && e.code == ErrorCode::InvalidArgument) && *final(target)
                == *old(target),
        },
{
    match params.default_operator {
        Some(value) => {
            let operator = FtsDefaultOperator::parse(value.as_str())?;
            target.default_operator = Some(operator);
        },
        None => {
            target.default_operator = None;
        },
    }
    Ok(())
}

/// Option of vector views.
pub open spec fn opt_seq<T>(value: Option<Vec<T>>) -> Option<Seq<T>> {
    match value {
        Some(v) => Some(v@),
        None => None,
    }
}

/// Option of string views.
pub open spec fn opt_text(value: Option<String>) -> Option<Seq<char>> {
    match value {
        Some(s) => Some(s@),
        None => None,
    }
}

/// The views of a list of names.
pub open spec fn name_views(fields: Seq<&str>) -> Seq<Seq<char>> {
    fields.map_values(|f: &str| f@)
}

/// Option of the views of a list of strings.
pub open spec fn opt_texts(value: Option<Vec<String>>) -> Option<Seq<Seq<char>>> {
    match value {
        Some(v) => Some(v@.map_values(|s: String| s@)),
        None => None,
    }
}

/// Whether every name is valid.
pub open spec fn all_valid_names(fields: Seq<&str>) -> bool {
    forall|i: int| 0 <= i < fields.len() ==> spec_valid_name(#[trigger] fields[i]@)
}

/// The filter a filter string sets: none for a blank string.
pub open spec fn filter_slot(filter: Seq<char>) -> Option<Seq<char>> {
    if spec_is_blank(filter) {
        None
    } else {
        Some(filter)
    }
}

/// Checks every name and copies them; the first invalid name is an error.
pub fn owned_names(fields: &[&str]) -> (r: Result<Vec<String>>)
    ensures
        all_valid_names(fields@) ==> (r matches Ok(v) && v@.map_values(|s: String| s@)
            == name_views(fields@)),
        !all_valid_names(fields@) ==> (r matches Err(e) && e.code == ErrorCode::InvalidArgument),
{
    let mut out: Vec<String> = Vec::new();
    let mut i: usize = 0;
    while i < fields.len()
        invariant
            i <= fields@.len(),
            out@.len() == i,
            forall|j: int| 0 <= j < i ==> spec_valid_name(#[trigger] fields@[j]@),
            forall|j: int| 0 <= j < i ==> (#[trigger] out@[j])@ == fields@[j]@,
        decreases fields@.len() - i,
    {
        validate_name(fields[i])?;
        out.push(fields[i].to_owned());
        i = i + 1;
    }
    proof {
        assert(out@.map_values(|s: String| s@) =~= name_views(fields@));
    }
    Ok(out)
}

/// A single dense, sparse, id-based, or full-text query. Vector values are
/// kept as `f32` bit patterns; sparse entries pair an index with a value's
/// pattern.
#[derive(Debug, Clone)]
pub struct SearchQuery {
    pub field_name: String,
    pub vector: Option<Vec<u32>>,
    pub sparse_vector: Option<Vec<(u32, u32)>>,
    pub id: Option<String>,
    pub topk: i32,
    pub filter: Option<String>,
    pub include_vector: bool,
    pub include_doc_id: bool,
    pub output_fields: Option<Vec<String>>,
    pub fts: Option<Fts>,
    pub params: QueryControls,
}

/// A query with only its field, `topk` and payload set.
pub open spec fn fresh_query(
    q: SearchQuery,
    field_name: Seq<char>,
    topk: i32,
    vector: Option<Seq<u32>>,
    sparse_vector: Option<Seq<(u32, u32)>>,
    id: Option<Seq<char>>,
    fts: Option<Fts>,
) -> bool {
    &&& q.field_name@ == field_name
    &&& opt_seq(q.vector) == vector
    &&& opt_seq(q.sparse_vector) == sparse_vector
    &&& opt_text(q.id) == id
    &&& q.topk == topk
    &&& q.filter is None
    &&& !q.include_vector
    &&& !q.include_doc_id
    &&& q.output_fields is None
    &&& q.fts == fts
    &&& q.params == no_controls()
}

/// The pairs of indices and values.
pub open spec fn zipped(indices: Seq<u32>, values: Seq<u32>) -> Seq<(u32, u32)> {
    Seq::new(indices.len(), |i: int| (indices[i], values[i]))
}

/// Indices and values that make a sparse query vector: equal, non-zero
/// lengths and finite values.
pub open spec fn sparse_ok(indices: Seq<u32>, values: Seq<u32>) -> bool {
    indices.len() > 0 && indices.len() == values.len() && all_f32_finite(values)
}

/// Whether `q` carries no payload, no filter and no controls yet.
fn empty_query(field_name: &str, topk: i32) -> (r: SearchQuery)
    ensures
        fresh_query(r, field_name@, topk, None, None, None, None),
{
    SearchQuery {
        field_name: field_name.to_owned(),
        vector: None,
        sparse_vector: None,
        id: None,
        topk,
        filter: None,
        include_vector: false,
        include_doc_id: false,
        output_fields: None,
        fts: None,
        params: QueryControls::new(),
    }
}

impl SearchQuery {
    /// A dense-vector query; the vector must be non-empty and finite.
    pub fn new(field_name: &str, vector: &[u32], topk: i32) -> (r: Result<Self>)
        ensures
            spec_valid_name(field_name@) && topk > 0 && vector@.len() > 0 && all_f32_finite(
                vector@,
            ) ==> (r matches Ok(q) && fresh_query(
                q,
                field_name@,
                topk,
                Some(vector@),
                None,
                None,
                None,
            )),
            !(spec_valid_name(field_name@) && topk > 0 && vector@.len() > 0 && all_f32_finite(
                vector@,
            )) ==> (r matches Err(e) && e.code == ErrorCode::InvalidArgument),
    {
        validate_query_header(field_name, topk)?;
        if vector.len() == 0 || !all_finite(vector) {
            return Err(Error::invalid_argument("query vector must be non-empty and finite"));
        }
        let mut query = empty_query(field_name, topk);
        query.vector = Some(slice_to_vec(vector));
        Ok(query)
    }

    /// A full-text query; the expression must set a query or match string.
    pub fn fts(field_name: &str, fts: &Fts, topk: i32) -> (r: Result<Self>)
        ensures
            spec_valid_name(field_name@) && topk > 0 && (fts.query_string is Some
                || fts.match_string is Some) ==> (r matches Ok(q) && fresh_query(
                q,
                field_name@,
                topk,
                None,
                None,
                None,
                Some(*fts),
            )),
            !(spec_valid_name(field_name@) && topk > 0 && (fts.query_string is Some
                || fts.match_string is Some)) ==> (r matches Err(e) && e.code
                == ErrorCode::InvalidArgument),
    {
        validate_query_header(field_name, topk)?;
        if fts.query_string.is_none() && fts.match_string.is_none() {
            return Err(Error::invalid_argument("FTS query has no expression"));
        }
        let mut query = empty_query(field_name, topk);
        query.fts = Some(fts.clone());
        Ok(query)
    }

    /// A query for the neighbours of a stored document; the id must be
    /// non-empty and free of NUL.
    pub fn by_id(field_name: &str, id: &str, topk: i32) -> (r: Result<Self>)
        ensures
            spec_valid_name(field_name@) && topk > 0 && id@.len() > 0 && !id@.contains('\0') ==> (
            r matches Ok(q) && fresh_query(q, field_name@, topk, None, None, Some(id@), None)),
            !(spec_valid_name(field_name@) && topk > 0 && id@.len() > 0 && !id@.contains('\0'))
                ==> (r matches Err(e) && e.code == ErrorCode::InvalidArgument),
    {
        validate_query_header(field_name, topk)?;
        if id.is_empty() || contains_char(id, '\0') {
            return Err(Error::invalid_argument("query id must be non-empty and contain no NUL byte"));
        }
        let mut query = empty_query(field_name, topk);
        query.id = Some(id.to_owned());
        Ok(query)
    }

    /// A sparse-vector query.
    pub fn sparse(field_name: &str, indices: &[u32], values: &[u32], topk: i32) -> (r: Result<
        Self,
    >)
        ensures
            spec_valid_name(field_name@) && topk > 0 && sparse_ok(indices@, values@) ==> (
            r matches Ok(q) && fresh_query(
                q,
                field_name@,
                topk,
                None,
                Some(zipped(indices@, values@)),
                None,
                None,
            )),
            !(spec_valid_name(field_name@) && topk > 0 && sparse_ok(indices@, values@)) ==> (
            r matches Err(e) && e.code == ErrorCode::InvalidArgument),
    {
        validate_query_header(field_name, topk)?;
        if indices.len() == 0 || indices.len() != values.len() || !all_finite(values) {
            return Err(
                Error::invalid_argument(
                    "sparse query indices and values must have equal non-zero length",
                ),
            );
        }
        let mut query = empty_query(field_name, topk);
        let pairs = zip_sparse(indices, values);
        proof {
            assert(pairs@ =~= zipped(indices@, values@));
        }
        query.sparse_vector = Some(pairs);
        Ok(query)
    }

    /// A fluent builder.
    pub fn builder() -> (r: SearchQueryBuilder)
        ensures
            r@ == initial_builder(),
    {
        SearchQueryBuilder::new()
    }

    /// Sets the field name; an invalid name changes nothing.
    pub fn set_field_name(&mut self, name: &str) -> (r: Result<()>)
        ensures
            spec_valid_name(name@) ==> r is Ok && final(self).field_name@ == name@ && (SearchQuery {
                field_name: old(self).field_name,
                ..*final(self)
            }) == *old(self),
            !spec_valid_name(name@) ==> (r matches Err(e) && e.code == ErrorCode::InvalidArgument)
                && *final(self) == *old(self),
    {
        validate_name(name)?;
        self.field_name = name.to_owned();
        Ok(())
    }

    /// Replaces the payload with a dense vector, which must be non-empty and
    /// finite.
    pub fn set_query_vector(&mut self, vector: &[u32]) -> (r: Result<()>)
        ensures
            vector@.len() > 0 && all_f32_finite(vector@) ==> r is Ok && opt_seq(final(self).vector)
                == Some(vector@) && final(self).sparse_vector is None && final(self).id is None
                && (SearchQuery {
                vector: old(self).vector,
                sparse_vector: old(self).sparse_vector,
                id: old(self).id,
                ..*final(self)
            }) == *old(self),
            !(vector@.len() > 0 && all_f32_finite(vector@)) ==> (r matches Err(e) && e.code
                == ErrorCode::InvalidArgument) && *final(self) == *old(self),
    {
        if vector.len() == 0 || !all_finite(vector) {
            return Err(Error::invalid_argument("query vector must be non-empty and finite"));
        }
        self.vector = Some(slice_to_vec(vector));
        self.sparse_vector = None;
        self.id = None;
        Ok(())
    }

    /// Replaces the payload with a sparse vector.
    pub fn set_sparse_vector(&mut self, indices: &[u32], values: &[u32]) -> (r: Result<()>)
        ensures
            sparse_ok(indices@, values@) ==> r is Ok && opt_seq(final(self).sparse_vector) == Some(
                zipped(indices@, values@),
            ) && final(self).vector is None && final(self).id is None && (SearchQuery {
                vector: old(self).vector,
                sparse_vector: old(self).sparse_vector,
                id: old(self).id,
                ..*final(self)
            }) == *old(self),
            !sparse_ok(indices@, values@) ==> (r matches Err(e) && e.code
                == ErrorCode::InvalidArgument) && *final(self) == *old(self),
    {
        if indices.len() == 0 || indices.len() != values.len() || !all_finite(values) {
            return Err(Error::invalid_argument("sparse query indices and values are invalid"));
        }
        let pairs = zip_sparse(indices, values);
        proof {
            assert(pairs@ =~= zipped(indices@, values@));
        }
        self.sparse_vector = Some(pairs);
        self.vector = None;
        self.id = None;
        Ok(())
    }

    /// Sets the filter; a blank filter clears it.
    pub fn set_filter(&mut self, filter: &str) -> (r: Result<()>)
        ensures
            r is Ok,
            opt_text(final(self).filter) == filter_slot(filter@),
            (SearchQuery { filter: old(self).filter, ..*final(self) }) == *old(self),
    {
        if is_blank(filter) {
            self.filter = None;
            return Ok(());
        }
        self.filter = Some(filter.to_owned());
        Ok(())
    }

    /// Sets `topk`; it must be positive.
    pub fn set_topk(&mut self, topk: i32) -> (r: Result<()>)
        ensures
            topk > 0 ==> r is Ok && *final(self) == (SearchQuery { topk, ..*old(self) }),
            topk <= 0 ==> (r matches Err(e) && e.code == ErrorCode::InvalidArgument) && *final(self)
                == *old(self),
    {
        if topk <= 0 {
            return Err(Error::invalid_argument("topk must be positive"));
        }
        self.topk = topk;
        Ok(())
    }

    /// Whether results carry their vectors.
    pub fn set_include_vector(&mut self, enabled: bool) -> (r: Result<()>)
        ensures
            r is Ok,
            *final(self) == (SearchQuery { include_vector: enabled, ..*old(self) }),
    {
        self.include_vector = enabled;
        Ok(())
    }

    /// Whether results carry their document ids.
    pub fn set_include_doc_id(&mut self, enabled: bool) -> (r: Result<()>)
        ensures
            r is Ok,
            *final(self) == (SearchQuery { include_doc_id: enabled, ..*old(self) }),
    {
        self.include_doc_id = enabled;
        Ok(())
    }

    /// Sets the returned fields; every name must be valid, else nothing
    /// changes.
    pub fn set_output_fields(&mut self, fields: &[&str]) -> (r: Result<()>)
        ensures
            all_valid_names(fields@) ==> r is Ok && opt_texts(final(self).output_fields) == Some(
                name_views(fields@),
            ) && (SearchQuery { output_fields: old(self).output_fields, ..*final(self) }) == *old(
                self,
            ),
            !all_valid_names(fields@) ==> (r matches Err(e) && e.code == ErrorCode::InvalidArgument)
                && *final(self) == *old(self),
    {
        let names = owned_names(fields)?;
        self.output_fields = Some(names);
        Ok(())
    }

    /// Records HNSW controls (see `apply_hnsw_query_controls`).
    pub fn set_hnsw_params(&mut self, params: HnswQueryParams) -> (r: Result<()>)
        ensures
            params.ef > 0 && f32_bits_finite(params.radius_bits) ==> r is Ok && *final(self) == (
            SearchQuery {
                params: QueryControls {
                    index_type: Some(ControlKind::Hnsw),
                    ef: Some(params.ef),
                    is_linear: Some(params.is_linear),
                    is_using_refiner: Some(params.is_using_refiner),
                    radius_bits: radius_slot(params.radius_bits),
                    ..cleared_ann(old(self).params)
                },
                ..*old(self)
            }),
            !(params.ef > 0 && f32_bits_finite(params.radius_bits)) ==> (r matches Err(e) && e.code
                == ErrorCode::InvalidArgument) && *final(self) == *old(self),
    {
        apply_hnsw_query_controls(&mut self.params, params)
    }

    /// Records IVF controls (see `apply_ivf_query_controls`).
    pub fn set_ivf_params(&mut self, params: IvfQueryParams) -> (r: Result<()>)
        ensures
            params.nprobe > 0 && f32_bits_positive_finite(params.scale_factor_bits) ==> r is Ok
                && *final(self) == (SearchQuery {
                params: QueryControls {
                    index_type: Some(ControlKind::Ivf),
                    nprobe: Some(params.nprobe),
                    is_using_refiner: Some(params.is_using_refiner),
                    scale_factor_bits: Some(params.scale_factor_bits),
                    ..cleared_ann(old(self).params)
                },
                ..*old(self)
            }),
            !(params.nprobe > 0 && f32_bits_positive_finite(params.scale_factor_bits)) ==> (
            r matches Err(e) && e.code == ErrorCode::InvalidArgument) && *final(self) == *old(
                self,
            ),
    {
        apply_ivf_query_controls(&mut self.params, params)
    }

    /// Records IVF RaBitQ controls (see `apply_ivf_rabitq_query_controls`).
    pub fn set_ivf_rabitq_params(&mut self, params: IvfRabitqQueryParams) -> (r: Result<()>)
        ensures
            params.nprobe > 0 && f32_bits_finite(params.radius_bits) && f32_bits_positive_finite(
                params.scale_factor_bits,
            ) ==> r is Ok && *final(self) == (SearchQuery {
                params: QueryControls {
                    index_type: Some(ControlKind::IvfRabitq),
                    nprobe: Some(params.nprobe),
                    is_linear: Some(params.is_linear),
                    is_using_refiner: Some(params.is_using_refiner),
                    scale_factor_bits: Some(params.scale_factor_bits),
                    radius_bits: radius_slot(params.radius_bits),
                    ..cleared_ann(old(self).params)
                },
                ..*old(self)
            }),
            !(params.nprobe > 0 && f32_bits_finite(params.radius_bits) && f32_bits_positive_finite(
                params.scale_factor_bits,
            )) ==> (r matches Err(e) && e.code == ErrorCode::InvalidArgument) && *final(self)
                == *old(self),
    {
        apply_ivf_rabitq_query_controls(&mut self.params, params)
    }

    /// Flat refinement controls have no consumer and are refused.
    pub fn set_flat_params(&mut self, params: FlatQueryParams) -> (r: Result<()>)
        ensures
            r matches Err(e) && e.code == ErrorCode::NotSupported,
            *final(self) == *old(self),
    {
        unsupported_query_controls("Flat refinement")
    }

    /// Records DiskANN controls (see `apply_diskann_query_controls`).
    pub fn set_diskann_params(&mut self, params: DiskannQueryParams) -> (r: Result<()>)
        ensures
            params.list_size > 0 ==> r is Ok && *final(self) == (SearchQuery {
                params: QueryControls {
                    index_type: Some(ControlKind::Diskann),
                    list_size: Some(params.list_size),
                    ..cleared_ann(old(self).params)
                },
                ..*old(self)
            }),
            params.list_size <= 0 ==> (r matches Err(e) && e.code == ErrorCode::InvalidArgument)
                && *final(self) == *old(self),
    {
        apply_diskann_query_controls(&mut self.params, params)
    }

    /// Records the full-text operator (see `apply_fts_query_controls`).
    pub fn set_fts_params(&mut self, params: FtsQueryParams) -> (r: Result<()>)
        ensures
            params.default_operator is None ==> r is Ok && *final(self) == (SearchQuery {
                params: QueryControls { default_operator: None, ..old(self).params },
                ..*old(self)
            }),
            params.default_operator matches Some(value) ==> match parsed_operator(value@) {
                Some(operator) => r is Ok && *final(self) == (SearchQuery {
                    params: QueryControls {
                        default_operator: Some(operator),
                        ..old(self).params
                    },
                    ..*old(self)
                }),
                None => (r matches Err(e) && e.code == ErrorCode::InvalidArgument) && *final(self)
                    == *old(self),
            },
    {
        apply_fts_query_controls(&mut self.params, params)
    }

    /// Sets the full-text expression, which must set a query or match
    /// string.
    pub fn set_fts(&mut self, fts: &Fts) -> (r: Result<()>)
        ensures
            fts.query_string is Some || fts.match_string is Some ==> r is Ok && *final(self) == (
            SearchQuery { fts: Some(*fts), ..*old(self) }),
            !(fts.query_string is Some || fts.match_string is Some) ==> (r matches Err(e) && e.code
                == ErrorCode::InvalidArgument) && *final(self) == *old(self),
    {
        if fts.query_string.is_none() && fts.match_string.is_none() {
            return Err(Error::invalid_argument("FTS query has no expression"));
        }
        self.fts = Some(fts.clone());
        Ok(())
    }

    /// Records a search radius, which must be finite (zero included).
    pub fn set_radius(&mut self, radius_bits: u32) -> (r: Result<()>)
        ensures
            f32_bits_finite(radius_bits) ==> r is Ok && *final(self) == (SearchQuery {
                params: QueryControls { radius_bits: Some(radius_bits), ..old(self).params },
                ..*old(self)
            }),
            !f32_bits_finite(radius_bits) ==> (r matches Err(e) && e.code
                == ErrorCode::InvalidArgument) && *final(self) == *old(self),
    {
        if !f32_bits_is_finite(radius_bits) {
            return Err(Error::invalid_argument("radius must be finite"));
        }
        self.params.radius_bits = Some(radius_bits);
        Ok(())
    }

    /// The filter, if set.
    pub fn get_filter(&self) -> (r: Option<&str>)
        ensures
            r is Some == self.filter is Some,
            r matches Some(f) ==> f@ == self.filter->0@,
    {
        match &self.filter {
            Some(filter) => Some(filter.as_str()),
            None => None,
        }
    }

    /// Whether the query carries a dense or sparse vector.
    pub fn has_vector(&self) -> (r: bool)
        ensures
            r == (self.vector is Some || self.sparse_vector is Some),
    {
        self.vector.is_some() || self.sparse_vector.is_some()
    }

    /// The full-text operator the query asks for: OR unless set.
    pub fn fts_default_operator(&self) -> (r: Result<FtsDefaultOperator>)
        ensures
            r == Ok::<FtsDefaultOperator, Error>(match self.params.default_operator {
                Some(operator) => operator,
                None => FtsDefaultOperator::Or,
            }),
    {
        match self.params.default_operator {
            Some(operator) => Ok(operator),
            None => Ok(FtsDefaultOperator::Or),
        }
    }
}

/// Whether `name` is a usable field name: not blank and free of NUL.
pub open spec fn spec_valid_name(name: Seq<char>) -> bool {
    !spec_is_blank(name) && !name.contains('\0')
}

/// Whether `text` contains `c`.
pub fn contains_char(text: &str, c: char) -> (r: bool)
    ensures
        r == text@.contains(c),
{
    for d in iter: text.chars()
        invariant
            iter.seq() == text@,
            forall|i: int| 0 <= i < iter.index() ==> text@[i] != c,
    {
        if d == c {
            return true;
        }
    }
    false
}

/// Rejects blank field names and names holding a NUL character.
pub fn validate_name(name: &str) -> (r: Result<()>)
    ensures
        spec_valid_name(name@) ==> r is Ok,
        !spec_valid_name(name@) ==> (r matches Err(e) && e.code == ErrorCode::InvalidArgument),
{
    if is_blank(name) || contains_char(name, '\0') {
        Err(Error::invalid_argument("field name must be non-empty and contain no NUL byte"))
    } else {
        Ok(())
    }
}

/// Checks the field name and a positive `topk` shared by every query.
pub fn validate_query_header(name: &str, topk: i32) -> (r: Result<()>)
    ensures
        spec_valid_name(name@) && topk > 0 ==> r is Ok,
        !(spec_valid_name(name@) && topk > 0) ==> (r matches Err(e) && e.code
            == ErrorCode::InvalidArgument),
{
    validate_name(name)?;
    if topk <= 0 {
        return Err(Error::invalid_argument("topk must be positive"));
    }
    Ok(())
}

/// Refuses query controls that no execution path consumes.
pub fn unsupported_query_controls(name: &str) -> (r: Result<()>)
    ensures
        r matches Err(e) && e.code == ErrorCode::NotSupported,
{
    let mut message = String::from_str(name);
    message.append(" query controls have no execution consumer");
    Err(Error::new(ErrorCode::NotSupported, message))
}

/// What a query builder has collected.
pub struct BuilderView {
    pub field_name: Option<Seq<char>>,
    pub vector: Option<Seq<u32>>,
    pub topk: i32,
    pub filter: Option<Seq<char>>,
    pub include_vector: Option<bool>,
    pub include_doc_id: Option<bool>,
    pub output_fields: Option<Seq<Seq<char>>>,
    pub fts_query_string: Option<Seq<char>>,
    pub fts_match_string: Option<Seq<char>>,
}

/// A fresh builder: nothing set and `topk` of 10.
pub open spec fn initial_builder() -> BuilderView {
    BuilderView {
        field_name: None,
        vector: None,
        topk: 10,
        filter: None,
        include_vector: None,
        include_doc_id: None,
        output_fields: None,
        fts_query_string: None,
        fts_match_string: None,
    }
}

/// Whether a builder's choices make a query: a valid field and `topk`, a
/// vector or one full-text string but not both, non-blank full-text text, a
/// usable vector when there is no full-text text, and valid output fields.
pub open spec fn builder_valid(b: BuilderView) -> bool {
    &&& b.field_name is Some
    &&& !(b.vector is Some && (b.fts_query_string is Some || b.fts_match_string is Some))
    &&& !(b.fts_query_string is Some && b.fts_match_string is Some)
    &&& (b.fts_query_string matches Some(q) ==> !spec_is_blank(q))
    &&& (b.fts_match_string matches Some(m) ==> !spec_is_blank(m))
    &&& spec_valid_name(b.field_name->0)
    &&& b.topk > 0
    &&& (b.fts_query_string is None && b.fts_match_string is None ==> (b.vector matches Some(v)
        && v.len() > 0 && all_f32_finite(v)))
    &&& (b.output_fields is Some ==> forall|i: int|
        0 <= i < b.output_fields->0.len() ==> spec_valid_name(#[trigger] b.output_fields->0[i]))
}

/// The query a valid builder makes.
pub open spec fn built_query(q: SearchQuery, b: BuilderView) -> bool {
    &&& q.field_name@ == b.field_name->0
    &&& q.topk == b.topk
    &&& q.sparse_vector is None
    &&& q.id is None
    &&& (if b.fts_query_string is Some || b.fts_match_string is Some {
        q.vector is None && (q.fts matches Some(f) && opt_text(f.query_string) == b.fts_query_string
            && opt_text(f.match_string) == b.fts_match_string)
    } else {
        opt_seq(q.vector) == b.vector && q.fts is None
    })
    &&& opt_text(q.filter) == match b.filter {
        Some(f) => filter_slot(f),
        None => None,
    }
    &&& q.include_vector == match b.include_vector {
        Some(v) => v,
        None => false,
    }
    &&& q.include_doc_id == match b.include_doc_id {
        Some(v) => v,
        None => false,
    }
    &&& opt_texts(q.output_fields) == b.output_fields
    &&& q.params == no_controls()
}

/// Fluent builder for a dense-vector or a full-text query. The two routes
/// exclude each other, as do the full-text query and match strings.
#[derive(Debug, Clone)]
pub struct SearchQueryBuilder {
    field_name: Option<String>,
    vector: Option<Vec<u32>>,
    topk: i32,
    filter: Option<String>,
    include_vector: Option<bool>,
    include_doc_id: Option<bool>,
    output_fields: Option<Vec<String>>,
    fts_query_string: Option<String>,
    fts_match_string: Option<String>,
}

impl View for SearchQueryBuilder {
    type V = BuilderView;

    closed spec fn view(&self) -> BuilderView {
        BuilderView {
            field_name: opt_text(self.field_name),
            vector: opt_seq(self.vector),
            topk: self.topk,
            filter: opt_text(self.filter),
            include_vector: self.include_vector,
            include_doc_id: self.include_doc_id,
            output_fields: opt_texts(self.output_fields),
            fts_query_string: opt_text(self.fts_query_string),
            fts_match_string: opt_text(self.fts_match_string),
        }
    }
}

impl SearchQueryBuilder {
    /// A fresh builder with `topk` of 10.
    pub fn new() -> (r: Self)
        ensures
            r@ == initial_builder(),
    {
        SearchQueryBuilder {
            field_name: None,
            vector: None,
            topk: 10,
            filter: None,
            include_vector: None,
            include_doc_id: None,
            output_fields: None,
            fts_query_string: None,
            fts_match_string: None,
        }
    }

    /// Sets the field name.
    pub fn field_name(self, name: &str) -> (r: Self)
        ensures
            r@ == (BuilderView { field_name: Some(name@), ..self@ }),
    {
        SearchQueryBuilder { field_name: Some(name.to_owned()), ..self }
    }

    /// Sets the dense vector.
    pub fn vector(self, vector: &[u32]) -> (r: Self)
        ensures
            r@ == (BuilderView { vector: Some(vector@), ..self@ }),
    {
        SearchQueryBuilder { vector: Some(slice_to_vec(vector)), ..self }
    }

    /// Sets `topk`.
    pub fn topk(self, topk: i32) -> (r: Self)
        ensures
            r@ == (BuilderView { topk, ..self@ }),
    {
        SearchQueryBuilder { topk, ..self }
    }

    /// Sets the filter.
    pub fn filter(self, filter: &str) -> (r: Self)
        ensures
            r@ == (BuilderView { filter: Some(filter@), ..self@ }),
    {
        SearchQueryBuilder { filter: Some(filter.to_owned()), ..self }
    }

    /// Whether results carry their vectors.
    pub fn include_vector(self, enabled: bool) -> (r: Self)
        ensures
            r@ == (BuilderView { include_vector: Some(enabled), ..self@ }),
    {
        SearchQueryBuilder { include_vector: Some(enabled), ..self }
    }

    /// Whether results carry their document ids.
    pub fn include_doc_id(self, enabled: bool) -> (r: Self)
        ensures
            r@ == (BuilderView { include_doc_id: Some(enabled), ..self@ }),
    {
        SearchQueryBuilder { include_doc_id: Some(enabled), ..self }
    }

    /// Sets the returned fields.
    pub fn output_fields(self, fields: &[&str]) -> (r: Self)
        ensures
            r@ == (BuilderView { output_fields: Some(name_views(fields@)), ..self@ }),
    {
        let mut names: Vec<String> = Vec::new();
        let mut i: usize = 0;
        while i < fields.len()
            invariant
                i <= fields@.len(),
                names@.len() == i,
                forall|j: int| 0 <= j < i ==> (#[trigger] names@[j])@ == fields@[j]@,
            decreases fields@.len() - i,
        {
            names.push(fields[i].to_owned());
            i = i + 1;
        }
        proof {
            assert(names@.map_values(|s: String| s@) =~= name_views(fields@));
        }
        SearchQueryBuilder { output_fields: Some(names), ..self }
    }

    /// Sets the full-text query string.
    pub fn fts_query_string(self, query: &str) -> (r: Self)
        ensures
            r@ == (BuilderView { fts_query_string: Some(query@), ..self@ }),
    {
        SearchQueryBuilder { fts_query_string: Some(query.to_owned()), ..self }
    }

    /// Sets the full-text match string.
    pub fn fts_match_string(self, query: &str) -> (r: Self)
        ensures
            r@ == (BuilderView { fts_match_string: Some(query@), ..self@ }),
    {
        SearchQueryBuilder { fts_match_string: Some(query.to_owned()), ..self }
    }

    /// Validates the chosen route and makes the query.
    pub fn build(self) -> (r: Result<SearchQuery>)
        ensures
            builder_valid(self@) ==> (r matches Ok(q) && built_query(q, self@)),
            !builder_valid(self@) ==> (r matches Err(e) && e.code == ErrorCode::InvalidArgument),
    {
        let ghost b = self@;
        let field = match self.field_name {
            Some(field) => field,
            None => {
                return Err(Error::invalid_argument("field_name is required"));
            },
        };
        let has_query_string = self.fts_query_string.is_some();
        let has_match_string = self.fts_match_string.is_some();
        if self.vector.is_some() && (has_query_string || has_match_string) {
            return Err(
                Error::invalid_argument(
                    "query builder cannot combine a vector with an FTS expression",
                ),
            );
        }
        if has_query_string && has_match_string {
            return Err(
                Error::invalid_argument(
                    "query builder cannot combine FTS query_string and match_string",
                ),
            );
        }
        let mut query = if has_query_string || has_match_string {
            let mut fts = Fts::new()?;
            if let Some(value) = &self.fts_query_string {
                fts.set_query_string(value.as_str())?;
            }
            if let Some(value) = &self.fts_match_string {
                fts.set_match_string(value.as_str())?;
            }
            SearchQuery::fts(field.as_str(), &fts, self.topk)?
        } else {
            let vector = match &self.vector {
                Some(vector) => vector,
                None => {
                    return Err(Error::invalid_argument("vector or FTS expression is required"));
                },
            };
            SearchQuery::new(field.as_str(), vector.as_slice(), self.topk)?
        };
        if let Some(filter) = &self.filter {
            query.set_filter(filter.as_str())?;
        }
        if let Some(value) = self.include_vector {
            query.set_include_vector(value)?;
        }
        if let Some(value) = self.include_doc_id {
            query.set_include_doc_id(value)?;
        }
        if let Some(fields) = self.output_fields {
            let mut i: usize = 0;
            while i < fields.len()
                invariant
                    i <= fields@.len(),
                    b.output_fields == Some(fields@.map_values(|s: String| s@)),
                    b == self@,
                    forall|j: int| 0 <= j < i ==> spec_valid_name(#[trigger] fields@[j]@),
                decreases fields@.len() - i,
            {
                match validate_name(fields[i].as_str()) {
                    Ok(()) => {},
                    Err(error) => {
                        proof {
                            assert(!builder_valid(b)) by {
                                let views = fields@.map_values(|s: String| s@);
                                assert(views[i as int] == fields@[i as int]@);
                                assert(!spec_valid_name(views[i as int]));
                                assert(b.output_fields == Some(views));
                                assert(!spec_valid_name(b.output_fields->0[i as int]));
                                assert(b.output_fields is Some);
                                assert((i as int) < b.output_fields->0.len());

                            }
                        }
                        return Err(error);
                    },
                }
                i = i + 1;
            }
            proof {
                let views = fields@.map_values(|s: String| s@);
                assert forall|j: int| 0 <= j < views.len() implies spec_valid_name(
                    #[trigger] views[j],
                ) by {
                    assert(views[j] == fields@[j]@);
                }
            }
            query.output_fields = Some(fields);
        }
        Ok(query)
    }
}

/// A group-by vector query. Vector values are kept as `f32` bit patterns.
#[derive(Debug, Clone)]
pub struct GroupBySearchQuery {
    pub field_name: String,
    pub group_by_field: String,
    pub vector: Vec<u32>,
    pub group_count: u32,
    pub group_topk: u32,
    pub filter: Option<String>,
    pub include_vector: bool,
    pub output_fields: Option<Vec<String>>,
    pub params: QueryControls,
}

impl GroupBySearchQuery {
    /// A group-by query; both names must be valid, the vector non-empty and
    /// finite, and both counts positive.
    pub fn new(
        field_name: &str,
        group_by_field: &str,
        vector: &[u32],
        group_count: u32,
        group_topk: u32,
    ) -> (r: Result<Self>)
        ensures
            spec_valid_name(field_name@) && spec_valid_name(group_by_field@) && vector@.len() > 0
                && all_f32_finite(vector@) && group_count > 0 && group_topk > 0 ==> (r matches Ok(q)
                && q.field_name@ == field_name@ && q.group_by_field@ == group_by_field@
                && q.vector@ == vector@ && q.group_count == group_count && q.group_topk
                == group_topk && q.filter is None && !q.include_vector && q.output_fields is None
                && q.params == no_controls()),
            !(spec_valid_name(field_name@) && spec_valid_name(group_by_field@) && vector@.len() > 0
                && all_f32_finite(vector@) && group_count > 0 && group_topk > 0) ==> (r matches Err(
                e,
            ) && e.code == ErrorCode::InvalidArgument),
    {
        validate_name(field_name)?;
        validate_name(group_by_field)?;
        if vector.len() == 0 || !all_finite(vector) || group_count == 0 || group_topk == 0 {
            return Err(Error::invalid_argument("invalid group-by query parameters"));
        }
        Ok(GroupBySearchQuery {
            field_name: field_name.to_owned(),
            group_by_field: group_by_field.to_owned(),
            vector: slice_to_vec(vector),
            group_count,
            group_topk,
            filter: None,
            include_vector: false,
            output_fields: None,
            params: QueryControls::new(),
        })
    }

    /// Sets the filter; a blank filter clears it.
    pub fn set_filter(&mut self, filter: &str) -> (r: Result<()>)
        ensures
            r is Ok,
            opt_text(final(self).filter) == filter_slot(filter@),
            (GroupBySearchQuery { filter: old(self).filter, ..*final(self) }) == *old(self),
    {
        if is_blank(filter) {
            self.filter = None;
        } else {
            self.filter = Some(filter.to_owned());
        }
        Ok(())
    }

    /// Whether results carry their vectors.
    pub fn set_include_vector(&mut self, enabled: bool) -> (r: Result<()>)
        ensures
            r is Ok,
            *final(self) == (GroupBySearchQuery { include_vector: enabled, ..*old(self) }),
    {
        self.include_vector = enabled;
        Ok(())
    }

    /// Sets the returned fields; every name must be valid, else nothing
    /// changes.
    pub fn set_output_fields(&mut self, fields: &[&str]) -> (r: Result<()>)
        ensures
            all_valid_names(fields@) ==> r is Ok && opt_texts(final(self).output_fields) == Some(
                name_views(fields@),
            ) && (GroupBySearchQuery { output_fields: old(self).output_fields, ..*final(self) })
                == *old(self),
            !all_valid_names(fields@) ==> (r matches Err(e) && e.code == ErrorCode::InvalidArgument)
                && *final(self) == *old(self),
    {
        let names = owned_names(fields)?;
        self.output_fields = Some(names);
        Ok(())
    }

    /// Records HNSW controls (see `apply_hnsw_query_controls`).
    pub fn set_hnsw_params(&mut self, params: HnswQueryParams) -> (r: Result<()>)
        ensures
            params.ef > 0 && f32_bits_finite(params.radius_bits) ==> r is Ok && *final(self) == (
            GroupBySearchQuery {
                params: QueryControls {
                    index_type: Some(ControlKind::Hnsw),
                    ef: Some(params.ef),
                    is_linear: Some(params.is_linear),
                    is_using_refiner: Some(params.is_using_refiner),
                    radius_bits: radius_slot(params.radius_bits),
                    ..cleared_ann(old(self).params)
                },
                ..*old(self)
            }),
            !(params.ef > 0 && f32_bits_finite(params.radius_bits)) ==> (r matches Err(e) && e.code
                == ErrorCode::InvalidArgument) && *final(self) == *old(self),
    {
        apply_hnsw_query_controls(&mut self.params, params)
    }

    /// Records IVF controls (see `apply_ivf_query_controls`).
    pub fn set_ivf_params(&mut self, params: IvfQueryParams) -> (r: Result<()>)
        ensures
            params.nprobe > 0 && f32_bits_positive_finite(params.scale_factor_bits) ==> r is Ok
                && *final(self) == (GroupBySearchQuery {
                params: QueryControls {
                    index_type: Some(ControlKind::Ivf),
                    nprobe: Some(params.nprobe),
                    is_using_refiner: Some(params.is_using_refiner),
                    scale_factor_bits: Some(params.scale_factor_bits),
                    ..cleared_ann(old(self).params)
                },
                ..*old(self)
            }),
            !(params.nprobe > 0 && f32_bits_positive_finite(params.scale_factor_bits)) ==> (
            r matches Err(e) && e.code == ErrorCode::InvalidArgument) && *final(self) == *old(
                self,
            ),
    {
        apply_ivf_query_controls(&mut self.params, params)
    }

    /// Records IVF RaBitQ controls (see `apply_ivf_rabitq_query_controls`).
    pub fn set_ivf_rabitq_params(&mut self, params: IvfRabitqQueryParams) -> (r: Result<()>)
        ensures
            params.nprobe > 0 && f32_bits_finite(params.radius_bits) && f32_bits_positive_finite(
                params.scale_factor_bits,
            ) ==> r is Ok && *final(self) == (GroupBySearchQuery {
                params: QueryControls {
                    index_type: Some(ControlKind::IvfRabitq),
                    nprobe: Some(params.nprobe),
                    is_linear: Some(params.is_linear),
                    is_using_refiner: Some(params.is_using_refiner),
                    scale_factor_bits: Some(params.scale_factor_bits),
                    radius_bits: radius_slot(params.radius_bits),
                    ..cleared_ann(old(self).params)
                },
                ..*old(self)
            }),
            !(params.nprobe > 0 && f32_bits_finite(params.radius_bits) && f32_bits_positive_finite(
                params.scale_factor_bits,
            )) ==> (r matches Err(e) && e.code == ErrorCode::InvalidArgument) && *final(self)
                == *old(self),
    {
        apply_ivf_rabitq_query_controls(&mut self.params, params)
    }

    /// Flat refinement controls have no consumer and are refused.
    pub fn set_flat_params(&mut self, params: FlatQueryParams) -> (r: Result<()>)
        ensures
            r matches Err(e) && e.code == ErrorCode::NotSupported,
            *final(self) == *old(self),
    {
        unsupported_query_controls("Flat refinement")
    }

    /// Records DiskANN controls (see `apply_diskann_query_controls`).
    pub fn set_diskann_params(&mut self, params: DiskannQueryParams) -> (r: Result<()>)
        ensures
            params.list_size > 0 ==> r is Ok && *final(self) == (GroupBySearchQuery {
                params: QueryControls {
                    index_type: Some(ControlKind::Diskann),
                    list_size: Some(params.list_size),
                    ..cleared_ann(old(self).params)
                },
                ..*old(self)
            }),
            params.list_size <= 0 ==> (r matches Err(e) && e.code == ErrorCode::InvalidArgument)
                && *final(self) == *old(self),
    {
        apply_diskann_query_controls(&mut self.params, params)
    }
}

} // verus!
