//! Field definitions compiled into bit masks, and the values they extract.

use bitvec::fields::BitField;
use bitvec::order::Lsb0;
use bitvec::vec::BitVec;
use vstd::prelude::*;

verus! {

use vstd::arithmetic::power2::{
    pow2,
    lemma2_to64,
    lemma_pow2_unfold,
    lemma_pow2_pos,
    lemma_pow2_adds,
    lemma_pow2_strictly_increases,
};
use vstd::arithmetic::div_mod::{lemma_div_multiples_vanish, lemma_small_mod};
use vstd::bits::{lemma_u32_shl_is_mul, lemma_u32_shr_is_div, lemma_u32_low_bits_mask_is_mod, low_bits_mask};
use crate::config::RegisterMask;
use crate::format::{PrintPreference, preference_named, lower_of, rendered};
use crate::literal::{literal_value, parse_literal};
use crate::report::{RegisterDescription, DescriptionView, opt_view, copy_text};
use std::collections::HashMap;

/// A bit vector of `bitvec`, in `Lsb0` order over bytes, held privately. Verus refuses
/// a declaration of `BitVec` itself, whose bounds name traits of its crate.
#[verifier::external_body]
pub struct MaskBits {
    bits: BitVec<Lsb0, u8>,
}

/// The bits that a `MaskBits` holds, in index order.
pub uninterp spec fn bits_of(v: MaskBits) -> Seq<bool>;

impl MaskBits {
    /// Relies on `BitVec::new`: a vector with no bits.
    #[verifier::external_body]
    fn new() -> (r: MaskBits)
        ensures
            bits_of(r) == Seq::<bool>::empty(),
    {
        MaskBits { bits: BitVec::new() }
    }

    /// Relies on `BitVec`'s `Extend<bool>`, which pushes each bit of the source
    /// at the end in turn.
    #[verifier::external_body]
    fn extend_with(&mut self, bit: bool, n: usize)
        requires
            bits_of(*old(self)).len() + n <= 32,
        ensures
            bits_of(*final(self)) == bits_of(*old(self)) + Seq::new(n as nat, |_i: int| bit),
    {
        self.bits.extend(std::iter::repeat(bit).take(n))
    }

    /// Relies on `BitField::load_le` on the bits of a `BitVec` in `Lsb0` order
    /// over bytes: the low `len` bits of the result are the bits in index order,
    /// the others are zero. It panics on an empty vector or on one wider than
    /// the result.
    #[verifier::external_body]
    fn load_u32(&self) -> (r: u32)
        requires
            1 <= bits_of(*self).len() <= 32,
        ensures
            r as nat == bits_value(bits_of(*self)),
    {
        self.bits.load_le::<u32>()
    }
}

/// The number whose binary digits, least significant first, are `b`.
pub open spec fn bits_value(b: Seq<bool>) -> nat
    decreases b.len(),
{
    if b.len() == 0 {
        0
    } else {
        (if b[0] {
            1nat
        } else {
            0nat
        }) + 2 * bits_value(b.drop_first())
    }
}

/// `start` clear bits followed by `width` set bits.
pub open spec fn mask_bits(start: nat, width: nat) -> Seq<bool> {
    Seq::new(start, |_i: int| false) + Seq::new(width, |_i: int| true)
}

proof fn lemma_clear_prefix_value(s: nat, rest: Seq<bool>)
    ensures
        bits_value(Seq::new(s, |_i: int| false) + rest) == pow2(s) * bits_value(rest),
    decreases s,
{
    let b = Seq::new(s, |_i: int| false) + rest;
    if s == 0 {
        assert(b =~= rest);
        lemma2_to64();
    } else {
        assert(b.drop_first() =~= Seq::new((s - 1) as nat, |_i: int| false) + rest);
        lemma_clear_prefix_value((s - 1) as nat, rest);
        lemma_pow2_unfold(s);
        assert(2 * (pow2((s - 1) as nat) * bits_value(rest)) == (2 * pow2((s - 1) as nat))
            * bits_value(rest)) by (nonlinear_arith);
    }
}

proof fn lemma_set_run_value(w: nat)
    ensures
        bits_value(Seq::new(w, |_i: int| true)) + 1 == pow2(w),
    decreases w,
{
    let b = Seq::new(w, |_i: int| true);
    if w == 0 {
        lemma2_to64();
    } else {
        assert(b.drop_first() =~= Seq::new((w - 1) as nat, |_i: int| true));
        lemma_set_run_value((w - 1) as nat);
        lemma_pow2_unfold(w);
    }
}

/// The value of a mask is `(2^width - 1) * 2^start`.
pub proof fn lemma_mask_bits_value(start: nat, width: nat)
    ensures
        bits_value(mask_bits(start, width)) == (pow2(width) - 1) * pow2(start),
{
    let run = bits_value(Seq::new(width, |_i: int| true));
    lemma_clear_prefix_value(start, Seq::new(width, |_i: int| true));
    lemma_set_run_value(width);
    assert(pow2(start) * run == run * pow2(start)) by (nonlinear_arith);
}

/// The value of the `width` bits of `val` that start at bit `start`.
pub open spec fn field_value(val: u32, start: nat, width: nat) -> u32 {
    (((val as nat) / pow2(start)) % pow2(width)) as u32
}

/// Masking with `(2^w - 1) * 2^s` and shifting down by `s` reads the field.
proof fn lemma_extract(val: u32, mask: u32, s: u32, w: u32)
    requires
        1 <= w,
        s + w <= 32,
        mask as nat == (pow2(w as nat) - 1) * pow2(s as nat),
    ensures
        (val & mask) >> s == field_value(val, s as nat, w as nat),
{
    lemma2_to64();
    lemma_pow2_pos(w as nat);
    lemma_pow2_pos(s as nat);
    lemma_pow2_adds(w as nat, s as nat);
    if w + s < 32 {
        lemma_pow2_strictly_increases((w + s) as nat, 32);
    }
    assert(pow2(w as nat) <= pow2((w + s) as nat)) by {
        if s > 0 {
            lemma_pow2_strictly_increases(w as nat, (w + s) as nat);
        }
    }
    let lm: u32 = (pow2(w as nat) - 1) as u32;
    assert(lm * pow2(s as nat) <= pow2((w + s) as nat) - 1) by (nonlinear_arith)
        requires
            lm == pow2(w as nat) - 1,
            pow2((w + s) as nat) == pow2(w as nat) * pow2(s as nat),
            pow2(s as nat) >= 1,
    ;
    lemma_u32_shl_is_mul(lm, s);
    assert(mask == lm << s);
    assert((val & (lm << s)) >> s == (val >> s) & lm) by (bit_vector)
        requires
            s < 32,
    ;
    lemma_u32_shr_is_div(val, s);
    let x: u32 = val >> s;
    if w < 32 {
        lemma_u32_low_bits_mask_is_mod(x, w as nat);
        assert(low_bits_mask(w as nat) == lm);
    } else {
        assert(s == 0);
        assert(x & 0xffff_ffffu32 == x) by (bit_vector);
    }
}

/// The width that a field declares: `width`, else `end - start`, else one bit.
/// It is negative where `end` comes before `start`.
pub open spec fn declared_width(rm: RegisterMask) -> int {
    match rm.width {
        Some(w) => w as int,
        None => match rm.end {
            Some(e) => e - rm.start,
            None => 1,
        },
    }
}

/// Why a field cannot be compiled.
#[derive(Debug, Clone, Copy, PartialEq, Eq, Structural)]
pub enum MaskError {
    /// `end` is given, `width` is not, and `end` is below `start`.
    EndBeforeStart,
    /// The field reaches past bit 31.
    TooWide,
}

/// The error that compiling a field meets, if any.
pub open spec fn mask_error(rm: RegisterMask) -> Option<MaskError> {
    if declared_width(rm) < 0 {
        Some(MaskError::EndBeforeStart)
    } else if rm.start + declared_width(rm) > 32 {
        Some(MaskError::TooWide)
    } else {
        None
    }
}

/// The pattern entries of a field.
pub open spec fn patterns_of(rm: RegisterMask) -> Seq<(String, String)> {
    match rm.patterns {
        Some(p) => p@,
        None => Seq::empty(),
    }
}

/// The table of pattern texts by value: entries whose literal denotes no
/// unsigned 32-bit value are dropped, and a later entry for a value replaces
/// an earlier one.
pub open spec fn pattern_table(entries: Seq<(String, String)>) -> Map<u32, String>
    decreases entries.len(),
{
    if entries.len() == 0 {
        Map::empty()
    } else {
        let prev = pattern_table(entries.drop_last());
        match literal_value(entries.last().0@) {
            Some(k) => prev.insert(k, entries.last().1),
            None => prev,
        }
    }
}

/// The style of a field: its own, else the one it inherits.
pub open spec fn resolved_format(rm: RegisterMask, inherited: PrintPreference) -> PrintPreference {
    match rm.preferred_format {
        Some(pf) => preference_named(lower_of(pf@)),
        None => inherited,
    }
}

/// A field definition compiled for extraction.
pub struct InflatedRegisterMask {
    pub name: String,
    pub description: Option<String>,
    pub print_format: PrintPreference,
    pub bitmask: MaskBits,
    pub base_offset: u32,
    pub width: u32,
    pub patterns: HashMap<u32, String>,
}

/// The text shown for a field value: its pattern text if it has one, else the
/// value in the field's style.
pub open spec fn field_text(table: Map<u32, String>, fmt: PrintPreference, masked: u32) -> Seq<char> {
    if table.contains_key(masked) {
        table[masked]@
    } else {
        rendered(fmt, masked as nat)
    }
}

/// `r` is what compiling `rm` under `name` gives: the error it meets, or the
/// compiled field.
pub open spec fn compile_outcome(
    r: Result<InflatedRegisterMask, MaskError>,
    rm: RegisterMask,
    name: String,
    inherited: PrintPreference,
) -> bool {
    match r {
        Ok(m) => mask_error(rm) is None && m.compiled_from(rm, name, inherited),
        Err(e) => mask_error(rm) == Some(e),
    }
}

/// What rendering `val` through the field `rm` named `name` gives.
pub open spec fn field_rendering(
    name: String,
    rm: RegisterMask,
    inherited: PrintPreference,
    val: u32,
) -> DescriptionView {
    DescriptionView {
        name: name@,
        value: field_text(
            pattern_table(patterns_of(rm)),
            resolved_format(rm, inherited),
            field_value(val, rm.start as nat, declared_width(rm) as nat),
        ),
        description: opt_view(rm.description),
        sort: rm.start,
    }
}

impl InflatedRegisterMask {
    /// The mask lies within 32 bits and holds `base_offset` clear bits followed
    /// by `width` set bits.
    pub open spec fn wf(&self) -> bool {
        &&& self.base_offset + self.width <= 32
        &&& bits_of(self.bitmask) == mask_bits(self.base_offset as nat, self.width as nat)
    }

    /// `self` is what compiling `rm` under `name` gives when the style
    /// `inherited` is passed down.
    pub open spec fn compiled_from(
        &self,
        rm: RegisterMask,
        name: String,
        inherited: PrintPreference,
    ) -> bool {
        &&& self.wf()
        &&& self.name == name
        &&& self.description == rm.description
        &&& self.print_format == resolved_format(rm, inherited)
        &&& self.base_offset == rm.start
        &&& self.width == declared_width(rm)
        &&& self.patterns@ == pattern_table(patterns_of(rm))
    }

    /// What rendering a value through this field gives.
    pub open spec fn rendering(&self, val: u32) -> DescriptionView {
        DescriptionView {
            name: self.name@,
            value: field_text(
                self.patterns@,
                self.print_format,
                field_value(val, self.base_offset as nat, self.width as nat),
            ),
            description: opt_view(self.description),
            sort: self.base_offset,
        }
    }

    /// Compiles a field definition; the field's own style wins over
    /// `default_print_pref`.
    pub fn try_from(rm: &RegisterMask, name: &String, default_print_pref: PrintPreference) -> (r:
        Result<InflatedRegisterMask, MaskError>)
        ensures
            compile_outcome(r, *rm, *name, default_print_pref),
    {
        let width: u32 = match rm.width {
            Some(w) => w,
            None => match rm.end {
                Some(end) => {
                    if end < rm.start {
                        return Err(MaskError::EndBeforeStart);
                    }
                    end - rm.start
                },
                None => 1,
            },
        };
        if rm.start as u64 + width as u64 > 32 {
            return Err(MaskError::TooWide);
        }
        let mut mask = MaskBits::new();
        mask.extend_with(false, rm.start as usize);
        mask.extend_with(true, width as usize);
        assert(bits_of(mask) =~= mask_bits(rm.start as nat, width as nat));

        let mut pattern_map: HashMap<u32, String> = HashMap::new();
        match &rm.patterns {
            Some(pm) => {
                let mut i: usize = 0;
                while i < pm.len()
                    invariant
                        rm.patterns == Some(*pm),
                        0 <= i <= pm@.len(),
                        pattern_map@ == pattern_table(pm@.subrange(0, i as int)),
                    decreases pm@.len() - i,
                {
                    broadcast use vstd::std_specs::hash::group_hash_axioms;
                    assert(pm@.subrange(0, i + 1).drop_last() =~= pm@.subrange(0, i as int));
                    match parse_literal(pm[i].0.as_str()) {
                        Some(k) => {
                            pattern_map.insert(k, pm[i].1.clone());
                        },
                        None => {},
                    }
                    i = i + 1;
                }
                assert(pm@.subrange(0, pm@.len() as int) =~= pm@);
            },
            None => {},
        }

        let print_pref = match &rm.preferred_format {
            Some(pf) => PrintPreference::from_text(pf.as_str()),
            None => default_print_pref,
        };

        Ok(
            InflatedRegisterMask {
                name: name.clone(),
                description: copy_text(&rm.description),
                print_format: print_pref,
                bitmask: mask,
                base_offset: rm.start,
                width: width,
                patterns: pattern_map,
            },
        )
    }

    /// The value of this field within `val`.
    pub fn extract(&self, val: u32) -> (r: u32)
        requires
            self.wf(),
        ensures
            r == field_value(val, self.base_offset as nat, self.width as nat),
    {
        if self.width == 0 {
            proof {
                lemma2_to64();
            }
            return 0;
        }
        let extracted_mask = self.bitmask.load_u32();
        proof {
            lemma_mask_bits_value(self.base_offset as nat, self.width as nat);
            lemma_extract(val, extracted_mask, self.base_offset, self.width);
        }
        (val & extracted_mask) >> self.base_offset
    }

    /// Renders the field's value within `val`: the pattern text for the exact
    /// value if there is one, else the value in the field's style.
    pub fn format_value(&self, val: u32) -> (r: RegisterDescription)
        requires
            self.wf(),
        ensures
            r@ == self.rendering(val),
    {
        broadcast use vstd::std_specs::hash::group_hash_axioms;
        let val_masked = self.extract(val);
        let decoded_value = match self.patterns.get(&val_masked) {
            Some(v) => v.clone(),
            None => self.print_format.format_val(val_masked),
        };
        RegisterDescription {
            name: self.name.clone(),
            value: decoded_value,
            description: copy_text(&self.description),
            sort: self.base_offset,
        }
    }
}

/// A compiled mask holds exactly `width` set bits, from bit `base_offset` up,
/// and extracting the field from a value equal to the mask gives
/// `2^width - 1`, all of the field's bits set.
pub proof fn lemma_compiled_mask(m: InflatedRegisterMask)
    requires
        m.wf(),
    ensures
        bits_of(m.bitmask).len() == m.base_offset + m.width,
        forall|i: int|
            0 <= i < bits_of(m.bitmask).len() ==> (#[trigger] bits_of(m.bitmask)[i] <==> m.base_offset
                <= i),
        bits_value(bits_of(m.bitmask)) == (pow2(m.width as nat) - 1) * pow2(m.base_offset as nat),
        field_value(bits_value(bits_of(m.bitmask)) as u32, m.base_offset as nat, m.width as nat)
            == pow2(m.width as nat) - 1,
{
    let s = m.base_offset as nat;
    let w = m.width as nat;
    lemma_mask_bits_value(s, w);
    lemma2_to64();
    lemma_pow2_pos(w);
    lemma_pow2_pos(s);
    lemma_pow2_adds(w, s);
    if w + s < 32 {
        lemma_pow2_strictly_increases(w + s, 32);
    }
    let v = bits_value(bits_of(m.bitmask));
    let low = (pow2(w) - 1) as nat;
    assert(v == low * pow2(s));
    assert(low * pow2(s) < pow2(w) * pow2(s)) by (nonlinear_arith)
        requires
            low < pow2(w),
            pow2(s) > 0,
    ;
    assert(pow2(w + s) <= 0x1_0000_0000);
    assert(v as u32 as nat == v);
    lemma_div_multiples_vanish(low as int, pow2(s) as int);
    assert(low * pow2(s) == pow2(s) * low) by (nonlinear_arith);
    lemma_small_mod(low, pow2(w));
}

/// Where a compiled field has no patterns, its text depends on the extracted
/// value alone: rendering the same masked value twice gives the same text,
/// the value in the field's style.
pub proof fn lemma_plain_rendering(m: InflatedRegisterMask, v1: u32, v2: u32)
    requires
        m.patterns@ == Map::<u32, String>::empty(),
        field_value(v1, m.base_offset as nat, m.width as nat) == field_value(
            v2,
            m.base_offset as nat,
            m.width as nat,
        ),
    ensures
        m.rendering(v1) == m.rendering(v2),
        m.rendering(v1).value == rendered(
            m.print_format,
            field_value(v1, m.base_offset as nat, m.width as nat) as nat,
        ),
{
}

/// Where the masked value has an entry in a field's patterns, the text shown
/// is that entry's text, and no number is formatted.
pub proof fn lemma_pattern_text_wins(m: InflatedRegisterMask, val: u32)
    requires
        m.patterns@.contains_key(field_value(val, m.base_offset as nat, m.width as nat)),
    ensures
        m.rendering(val).value == m.patterns@[field_value(
            val,
            m.base_offset as nat,
            m.width as nat,
        )]@,
{
}

} // verus!
