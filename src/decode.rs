//! Decoding a value through the register that a path names, and the listing
//! of set bits used where no register matches.

use vstd::prelude::*;

verus! {

use vstd::arithmetic::power2::{pow2, lemma2_to64, lemma_pow2_unfold};
use crate::config::{BitInfo, RegisterMask, resolve, path_of, find_config_for_name};
use crate::format::{PrintPreference, preference_of, rendered, digits, push_digits};
use crate::mask::{
    InflatedRegisterMask,
    MaskError,
    mask_error,
    field_rendering,
};
use crate::report::{RegisterDescription, DescriptionView, opt_view, views_of};

/// A field that could not be compiled, and why.
#[derive(Debug)]
pub struct FieldError {
    pub name: String,
    pub error: MaskError,
}

/// The outcome of one decode: a header line, the field lines in order, and
/// the fields that were skipped.
pub struct Report {
    pub header: RegisterDescription,
    pub fields: Vec<RegisterDescription>,
    pub skipped: Vec<FieldError>,
}

/// The field definitions of a node.
pub open spec fn fields_of(node: BitInfo) -> Seq<(String, RegisterMask)> {
    match node.fields {
        Some(f) => f@,
        None => Seq::empty(),
    }
}

/// The style that a node hands down to its fields.
pub open spec fn node_format(node: BitInfo) -> PrintPreference {
    preference_of(opt_view(node.preferred_format))
}

/// Whether no entry after position `i` bears the name of entry `i`; an entry
/// that a later one names is overridden by it.
pub open spec fn is_live(fields: Seq<(String, RegisterMask)>, i: int) -> bool {
    forall|j: int| i < j < fields.len() ==> fields[j].0@ != fields[i].0@
}

/// The positions below `n` of the entries that are not overridden, in order.
pub open spec fn live_upto(fields: Seq<(String, RegisterMask)>, n: nat) -> Seq<int>
    decreases n,
{
    if n == 0 {
        Seq::empty()
    } else {
        let prev = live_upto(fields, (n - 1) as nat);
        if is_live(fields, n - 1) {
            prev.push(n - 1)
        } else {
            prev
        }
    }
}

/// The positions of the entries that are not overridden, in order.
pub open spec fn live_indices(fields: Seq<(String, RegisterMask)>) -> Seq<int> {
    live_upto(fields, fields.len())
}

/// The lines of the entries at `idx` that compile, in that order.
pub open spec fn lines_at(
    fields: Seq<(String, RegisterMask)>,
    idx: Seq<int>,
    inherited: PrintPreference,
    val: u32,
) -> Seq<DescriptionView>
    decreases idx.len(),
{
    if idx.len() == 0 {
        Seq::empty()
    } else {
        let prev = lines_at(fields, idx.drop_last(), inherited, val);
        let (name, rm) = fields[idx.last()];
        if mask_error(rm) is None {
            prev.push(field_rendering(name, rm, inherited, val))
        } else {
            prev
        }
    }
}

/// The names and errors of the entries at `idx` that do not compile, in that
/// order.
pub open spec fn errors_at(fields: Seq<(String, RegisterMask)>, idx: Seq<int>) -> Seq<
    (Seq<char>, MaskError),
>
    decreases idx.len(),
{
    if idx.len() == 0 {
        Seq::empty()
    } else {
        let prev = errors_at(fields, idx.drop_last());
        let (name, rm) = fields[idx.last()];
        match mask_error(rm) {
            Some(e) => prev.push((name@, e)),
            None => prev,
        }
    }
}

/// The lines of the fields that compile, leaving out overridden entries.
pub open spec fn field_lines(
    fields: Seq<(String, RegisterMask)>,
    inherited: PrintPreference,
    val: u32,
) -> Seq<DescriptionView> {
    lines_at(fields, live_indices(fields), inherited, val)
}

/// The names of the fields that do not compile, with their errors, leaving
/// out overridden entries.
pub open spec fn field_errors(fields: Seq<(String, RegisterMask)>) -> Seq<(Seq<char>, MaskError)> {
    errors_at(fields, live_indices(fields))
}

/// `r` is what preparing the field `rm` named `name` gives: the field
/// compiled, or its name with the error it meets.
pub open spec fn prepared_outcome(
    r: Result<InflatedRegisterMask, FieldError>,
    rm: RegisterMask,
    name: String,
    inherited: PrintPreference,
) -> bool {
    match r {
        Ok(m) => mask_error(rm) is None && m.compiled_from(rm, name, inherited),
        Err(e) => mask_error(rm) == Some(e.error) && e.name == name,
    }
}

/// The skipped fields of a report, as names and errors.
pub open spec fn errors_view(es: Seq<FieldError>) -> Seq<(Seq<char>, MaskError)> {
    es.map_values(|e: FieldError| (e.name@, e.error))
}

/// Lines whose bit positions never decrease.
pub open spec fn sorted_by_position(s: Seq<DescriptionView>) -> bool {
    forall|i: int, j: int| 0 <= i < j < s.len() ==> s[i].sort <= s[j].sort
}

/// The segments of a path joined by dots.
pub open spec fn joined(path: Seq<Seq<char>>) -> Seq<char>
    decreases path.len(),
{
    if path.len() == 0 {
        Seq::empty()
    } else if path.len() == 1 {
        path[0]
    } else {
        joined(path.drop_last()) + seq!['.'] + path.last()
    }
}

/// The header of a decode through a register: the path, the whole value in
/// the register's style, and an arrow.
pub open spec fn register_header(path: Seq<Seq<char>>, fmt: PrintPreference, val: u32) -> DescriptionView {
    DescriptionView {
        name: joined(path) + seq![' '] + rendered(fmt, val as nat) + seq![' ', '-', '>'],
        value: Seq::empty(),
        description: None,
        sort: 0,
    }
}

/// The header of a listing of bits: the value in decimal, then the value in
/// decimal, hexadecimal and binary.
pub open spec fn bits_header(val: u32) -> DescriptionView {
    DescriptionView {
        name: digits(val as nat, 10),
        value: digits(val as nat, 10) + seq![' '] + rendered(PrintPreference::Hex, val as nat) + seq![' ']
            + rendered(PrintPreference::Bin, val as nat),
        description: None,
        sort: 0,
    }
}

/// The line for a set bit at position `i`.
pub open spec fn bit_line(i: nat) -> DescriptionView {
    DescriptionView {
        name: Seq::empty(),
        value: digits(i, 10) + seq!['t', 'h', ' ', 's', 'e', 't'],
        description: None,
        sort: i as u32,
    }
}

/// The lines for the set bits of `n`, whose lowest bit stands at position
/// `i`, from the lowest up.
pub open spec fn set_bit_lines(n: nat, i: nat) -> Seq<DescriptionView>
    decreases n,
{
    if n == 0 {
        Seq::empty()
    } else {
        let rest = set_bit_lines(n / 2, i + 1);
        if n % 2 == 1 {
            seq![bit_line(i)] + rest
        } else {
            rest
        }
    }
}

/// `r` lists the bits of `val`: the header, and a line for each set bit when
/// `each_bit` is asked for.
pub open spec fn enumerated_as(r: Report, val: u32, each_bit: bool) -> bool {
    &&& r.header@ == bits_header(val)
    &&& views_of(r.fields@) == if each_bit {
        set_bit_lines(val as nat, 0)
    } else {
        Seq::empty()
    }
    &&& r.skipped@.len() == 0
}

/// `r` is the decode of `val` through the register that `path` names in
/// `config`, or the listing of its bits where the path names none.
pub open spec fn decoded_as(
    r: Report,
    val: u32,
    path: Seq<Seq<char>>,
    config: Seq<(String, BitInfo)>,
) -> bool {
    match resolve(path, config) {
        None => enumerated_as(r, val, false),
        Some(node) => {
            &&& r.header@ == register_header(path, node_format(node), val)
            &&& sorted_by_position(views_of(r.fields@))
            &&& views_of(r.fields@).to_multiset() == field_lines(
                fields_of(node),
                node_format(node),
                val,
            ).to_multiset()
            &&& errors_view(r.skipped@) == field_errors(fields_of(node))
        },
    }
}

proof fn lemma_live_upto_shape(fields: Seq<(String, RegisterMask)>, n: nat)
    requires
        n <= fields.len(),
    ensures
        forall|k: int|
            0 <= k < live_upto(fields, n).len() ==> 0 <= #[trigger] live_upto(fields, n)[k] < n
                && is_live(fields, live_upto(fields, n)[k]),
        forall|a: int, b: int|
            0 <= a < b < live_upto(fields, n).len() ==> #[trigger] live_upto(fields, n)[a]
                < #[trigger] live_upto(fields, n)[b],
    decreases n,
{
    if n > 0 {
        let m = (n - 1) as nat;
        lemma_live_upto_shape(fields, m);
        let prev = live_upto(fields, m);
        let cur = live_upto(fields, n);
        if is_live(fields, m as int) {
            assert(cur == prev.push(m as int));
            assert forall|k: int| 0 <= k < cur.len() implies 0 <= #[trigger] cur[k] < n && is_live(
                fields,
                cur[k],
            ) by {
                if k < prev.len() {
                    assert(cur[k] == prev[k]);
                }
            }
            assert forall|a: int, b: int| 0 <= a < b < cur.len() implies #[trigger] cur[a]
                < #[trigger] cur[b] by {
                assert(cur[a] == prev[a]);
                if b < prev.len() {
                    assert(cur[b] == prev[b]);
                }
            }
        } else {
            assert(cur == prev);
        }
    }
}

proof fn lemma_lines_named(
    fields: Seq<(String, RegisterMask)>,
    idx: Seq<int>,
    inherited: PrintPreference,
    val: u32,
)
    ensures
        forall|p: int|
            0 <= p < lines_at(fields, idx, inherited, val).len() ==> exists|a: int|
                0 <= a < idx.len() && #[trigger] lines_at(fields, idx, inherited, val)[p].name
                    == fields[idx[a]].0@,
    decreases idx.len(),
{
    if idx.len() > 0 {
        let prev = idx.drop_last();
        lemma_lines_named(fields, prev, inherited, val);
        let lines = lines_at(fields, idx, inherited, val);
        assert forall|p: int| 0 <= p < lines.len() implies exists|a: int|
            0 <= a < idx.len() && #[trigger] lines[p].name == fields[idx[a]].0@ by {
            if p < lines_at(fields, prev, inherited, val).len() {
                let a = choose|a: int|
                    0 <= a < prev.len() && lines_at(fields, prev, inherited, val)[p].name
                        == fields[prev[a]].0@;
                assert(idx[a] == prev[a]);
            } else {
                assert(lines[p].name == fields[idx[idx.len() - 1]].0@);
            }
        }
    }
}

proof fn lemma_lines_distinct(
    fields: Seq<(String, RegisterMask)>,
    idx: Seq<int>,
    inherited: PrintPreference,
    val: u32,
)
    requires
        forall|a: int, b: int|
            0 <= a < b < idx.len() ==> fields[#[trigger] idx[a]].0@ != fields[#[trigger] idx[b]].0@,
    ensures
        forall|p: int, q: int|
            0 <= p < q < lines_at(fields, idx, inherited, val).len() ==> #[trigger] lines_at(
                fields,
                idx,
                inherited,
                val,
            )[p].name != #[trigger] lines_at(fields, idx, inherited, val)[q].name,
    decreases idx.len(),
{
    if idx.len() > 0 {
        let prev = idx.drop_last();
        assert forall|a: int, b: int| 0 <= a < b < prev.len() implies fields[#[trigger] prev[a]].0@
            != fields[#[trigger] prev[b]].0@ by {
            assert(prev[a] == idx[a] && prev[b] == idx[b]);
        }
        lemma_lines_distinct(fields, prev, inherited, val);
        lemma_lines_named(fields, prev, inherited, val);
        let before = lines_at(fields, prev, inherited, val);
        let lines = lines_at(fields, idx, inherited, val);
        assert forall|p: int, q: int| 0 <= p < q < lines.len() implies #[trigger] lines[p].name
            != #[trigger] lines[q].name by {
            if q >= before.len() {
                let a = choose|a: int|
                    0 <= a < prev.len() && before[p].name == fields[prev[a]].0@;
                assert(idx[a] == prev[a]);
                assert(fields[idx[a]].0@ != fields[idx[idx.len() - 1]].0@);
            }
        }
    }
}

/// Names within a register are unique after overriding: the entries that are
/// kept bear distinct names, each kept entry has no later namesake, and the
/// lines decoded from a register bear distinct names.
pub proof fn lemma_decoded_names_distinct(
    fields: Seq<(String, RegisterMask)>,
    inherited: PrintPreference,
    val: u32,
)
    ensures
        forall|k: int|
            0 <= k < live_indices(fields).len() ==> 0 <= #[trigger] live_indices(fields)[k]
                < fields.len() && is_live(fields, live_indices(fields)[k]),
        forall|a: int, b: int|
            0 <= a < b < live_indices(fields).len() ==> fields[#[trigger] live_indices(
                fields,
            )[a]].0@ != fields[#[trigger] live_indices(fields)[b]].0@,
        forall|p: int, q: int|
            0 <= p < q < field_lines(fields, inherited, val).len() ==> #[trigger] field_lines(
                fields,
                inherited,
                val,
            )[p].name != #[trigger] field_lines(fields, inherited, val)[q].name,
{
    let idx = live_indices(fields);
    lemma_live_upto_shape(fields, fields.len());
    assert forall|a: int, b: int| 0 <= a < b < idx.len() implies fields[#[trigger] idx[a]].0@
        != fields[#[trigger] idx[b]].0@ by {
        assert(idx[a] < idx[b]);
        assert(is_live(fields, idx[a]));
    }
    lemma_lines_distinct(fields, idx, inherited, val);
}

/// Whether an entry after position `i` bears the name of entry `i`.
fn named_later(fields: &Vec<(String, RegisterMask)>, i: usize) -> (r: bool)
    requires
        i < fields@.len(),
    ensures
        r == !is_live(fields@, i as int),
{
    let n = fields.len();
    let mut j: usize = i + 1;
    while j < n
        invariant
            n == fields@.len(),
            i < j <= n,
            forall|t: int| i < t < j ==> fields@[t].0@ != fields@[i as int].0@,
        decreases n - j,
    {
        if fields[j].0 == fields[i].0 {
            return true;
        }
        j = j + 1;
    }
    false
}

/// Compiles the fields of a register under the register's style, in order,
/// leaving out each entry that a later entry of the same name overrides.
pub fn prep_decoders(raw_dec: &BitInfo) -> (r: Vec<Result<InflatedRegisterMask, FieldError>>)
    ensures
        r@.len() == live_indices(fields_of(*raw_dec)).len(),
        forall|k: int|
            0 <= k < r@.len() ==> prepared_outcome(
                #[trigger] r@[k],
                fields_of(*raw_dec)[live_indices(fields_of(*raw_dec))[k]].1,
                fields_of(*raw_dec)[live_indices(fields_of(*raw_dec))[k]].0,
                node_format(*raw_dec),
            ),
{
    let parent_format = PrintPreference::from_option(raw_dec.preferred_format.as_ref());
    let mut decoders: Vec<Result<InflatedRegisterMask, FieldError>> = Vec::new();
    match &raw_dec.fields {
        Some(raw_fields) => {
            let ghost fields = raw_fields@;
            let mut i: usize = 0;
            while i < raw_fields.len()
                invariant
                    fields_of(*raw_dec) == fields,
                    fields == raw_fields@,
                    parent_format == node_format(*raw_dec),
                    0 <= i <= fields.len(),
                    decoders@.len() == live_upto(fields, i as nat).len(),
                    forall|k: int|
                        0 <= k < decoders@.len() ==> prepared_outcome(
                            #[trigger] decoders@[k],
                            fields[live_upto(fields, i as nat)[k]].1,
                            fields[live_upto(fields, i as nat)[k]].0,
                            parent_format,
                        ),
                decreases fields.len() - i,
            {
                if !named_later(raw_fields, i) {
                    let (name, rm) = &raw_fields[i];
                    let outcome = match InflatedRegisterMask::try_from(rm, name, parent_format) {
                        Ok(m) => Ok(m),
                        Err(e) => Err(FieldError { name: name.clone(), error: e }),
                    };
                    decoders.push(outcome);
                }
                assert(live_upto(fields, (i + 1) as nat) == if is_live(fields, i as int) {
                    live_upto(fields, i as nat).push(i as int)
                } else {
                    live_upto(fields, i as nat)
                });
                i = i + 1;
            }
        },
        None => {},
    }
    decoders
}

proof fn lemma_insert_to_multiset(s: Seq<DescriptionView>, p: int, v: DescriptionView)
    requires
        0 <= p <= s.len(),
    ensures
        s.insert(p, v).to_multiset() == s.to_multiset().insert(v),
{
    broadcast use vstd::seq_lib::group_to_multiset_ensures;
    let t = s.insert(p, v);
    assert(t.remove(p) =~= s);
    assert(t.contains(v)) by {
        assert(t[p] == v);
    }
    assert(t.to_multiset() =~= s.to_multiset().insert(v));
}

/// Inserts `d` after every line whose position is not above its own.
fn insert_by_position(all: &mut Vec<RegisterDescription>, d: RegisterDescription)
    requires
        sorted_by_position(views_of(old(all)@)),
    ensures
        sorted_by_position(views_of(final(all)@)),
        views_of(final(all)@).to_multiset() == views_of(old(all)@).to_multiset().insert(d@),
{
    let mut p: usize = all.len();
    while p > 0 && all[p - 1].sort > d.sort
        invariant
            0 <= p <= all@.len(),
            forall|k: int| p <= k < all@.len() ==> all@[k].sort > d.sort,
        decreases p,
    {
        p = p - 1;
    }
    let ghost before = views_of(all@);
    all.insert(p, d);
    proof {
        assert(views_of(all@) =~= before.insert(p as int, d@));
        lemma_insert_to_multiset(before, p as int, d@);
        let now = views_of(all@);
        assert forall|i: int, j: int| 0 <= i < j < now.len() implies now[i].sort <= now[j].sort by {
            if j < p {
            } else if j == p {
                assert(before[p - 1].sort <= d.sort);
                assert(before[i].sort <= before[p - 1].sort || i == p - 1);
            } else if i < p {
                assert(now[j] == before[j - 1]);
            } else if i == p {
                assert(now[j] == before[j - 1]);
            } else {
                assert(now[i] == before[i - 1]);
            }
        }
    }
}

/// Joins the segments of a path with dots.
pub fn join_path(keys: &Vec<String>) -> (r: String)
    ensures
        r@ == joined(path_of(keys@)),
{
    let ghost path = path_of(keys@);
    let mut out = String::new();
    let mut i: usize = 0;
    while i < keys.len()
        invariant
            path == path_of(keys@),
            0 <= i <= keys@.len(),
            out@ == joined(path.subrange(0, i as int)),
        decreases keys@.len() - i,
    {
        let ghost prev = path.subrange(0, i as int);
        let ghost next = path.subrange(0, i + 1);
        assert(next.drop_last() =~= prev);
        if i > 0 {
            out.push('.');
        }
        out.append(keys[i].as_str());
        assert(out@ =~= joined(next));
        i = i + 1;
    }
    assert(path.subrange(0, path.len() as int) =~= path);
    out
}

/// Lists the bits of `number`: a header with its decimal, hexadecimal and
/// binary forms and, when `print_each_bit` is set, a line for each set bit
/// from the lowest up.
pub fn print_bits(number: u32, print_each_bit: bool) -> (r: Report)
    ensures
        enumerated_as(r, number, print_each_bit),
{
    let name = PrintPreference::Decimal.format_val(number);
    let mut value = PrintPreference::Decimal.format_val(number);
    value.push(' ');
    value.append(PrintPreference::Hex.format_val(number).as_str());
    value.push(' ');
    value.append(PrintPreference::Bin.format_val(number).as_str());
    let header = RegisterDescription { name, value, description: None, sort: 0 };
    assert(header.name@ =~= bits_header(number).name);
    assert(header.value@ =~= bits_header(number).value);

    let mut extra_info: Vec<RegisterDescription> = Vec::new();
    if print_each_bit {
        let mut number_to_eat: u32 = number;
        let mut i: u32 = 0;
        proof {
            lemma2_to64();
        }
        while number_to_eat != 0
            invariant
                i <= 32,
                (number_to_eat as nat) < pow2((32 - i) as nat),
                set_bit_lines(number as nat, 0) == views_of(extra_info@) + set_bit_lines(
                    number_to_eat as nat,
                    i as nat,
                ),
            decreases number_to_eat,
        {
            proof {
                if i == 32 {
                    lemma2_to64();
                }
                lemma_pow2_unfold((32 - i) as nat);
            }
            let ghost before = views_of(extra_info@);
            if (number_to_eat & 1) != 0 {
                assert(number_to_eat & 1 != 0 ==> number_to_eat % 2 == 1) by (bit_vector);
                let mut text = String::new();
                push_digits(&mut text, i, 10);
                text.push('t');
                text.push('h');
                text.push(' ');
                text.push('s');
                text.push('e');
                text.push('t');
                let line = RegisterDescription {
                    name: String::new(),
                    value: text,
                    description: None,
                    sort: i,
                };
                assert(line.value@ =~= bit_line(i as nat).value);
                assert(line.name@ =~= bit_line(i as nat).name);
                extra_info.push(line);
                assert(views_of(extra_info@) =~= before.push(bit_line(i as nat)));
            } else {
                assert(number_to_eat & 1 == 0 ==> number_to_eat % 2 == 0) by (bit_vector);
            }
            assert(number_to_eat >> 1 == number_to_eat / 2) by (bit_vector);
            number_to_eat = number_to_eat >> 1;
            i = i + 1;
        }
        assert(views_of(extra_info@) + Seq::<DescriptionView>::empty() =~= views_of(extra_info@));
    } else {
        assert(views_of(extra_info@) =~= Seq::<DescriptionView>::empty());
    }
    Report { header, fields: extra_info, skipped: Vec::new() }
}

/// Decodes `number` through the register that `keys` names in `configs`: one
/// line per field that compiles, ordered by bit position, and the fields that
/// do not. Where the path names no register, lists the bits of `number`
/// instead.
pub fn smart_decode(number: u32, keys: &Vec<String>, configs: &Vec<(String, BitInfo)>) -> (r:
    Report)
    ensures
        decoded_as(r, number, path_of(keys@), configs@),
{
    let decoder = match find_config_for_name(keys, configs) {
        Some(d) => d,
        None => {
            return print_bits(number, false);
        },
    };
    let ghost node = *decoder;
    let ghost fields = fields_of(node);
    let ghost fmt = node_format(node);
    let decoders = prep_decoders(decoder);

    let ghost idx = live_indices(fields);
    let mut all_formats: Vec<RegisterDescription> = Vec::new();
    let mut skipped: Vec<FieldError> = Vec::new();
    let mut k: usize = 0;
    assert(views_of(all_formats@) =~= Seq::<DescriptionView>::empty());
    assert(idx.subrange(0, 0) =~= Seq::<int>::empty());
    assert(errors_view(skipped@) =~= Seq::<(Seq<char>, MaskError)>::empty());
    while k < decoders.len()
        invariant
            decoders@.len() == idx.len(),
            idx == live_indices(fields),
            forall|t: int|
                0 <= t < decoders@.len() ==> prepared_outcome(
                    #[trigger] decoders@[t],
                    fields[idx[t]].1,
                    fields[idx[t]].0,
                    fmt,
                ),
            0 <= k <= decoders@.len(),
            sorted_by_position(views_of(all_formats@)),
            views_of(all_formats@).to_multiset() == lines_at(
                fields,
                idx.subrange(0, k as int),
                fmt,
                number,
            ).to_multiset(),
            errors_view(skipped@) == errors_at(fields, idx.subrange(0, k as int)),
        decreases decoders@.len() - k,
    {
        let ghost prefix = idx.subrange(0, k + 1);
        assert(prefix.drop_last() =~= idx.subrange(0, k as int));
        assert(prefix.last() == idx[k as int]);
        let ghost i = idx[k as int];
        match &decoders[k] {
            Ok(d) => {
                let line = d.format_value(number);
                assert(line@ == field_rendering(fields[i].0, fields[i].1, fmt, number));
                proof {
                    broadcast use vstd::seq_lib::group_to_multiset_ensures;
                }
                insert_by_position(&mut all_formats, line);
            },
            Err(e) => {
                let ghost before = errors_view(skipped@);
                skipped.push(FieldError { name: e.name.clone(), error: e.error });
                assert(errors_view(skipped@) =~= before.push((fields[i].0@, e.error)));
            },
        }
        k = k + 1;
    }
    assert(idx.subrange(0, idx.len() as int) =~= idx);

    let default_format = PrintPreference::from_option(decoder.preferred_format.as_ref());
    let mut name = join_path(keys);
    name.push(' ');
    name.append(default_format.format_val(number).as_str());
    name.push(' ');
    name.push('-');
    name.push('>');
    let header = RegisterDescription { name, value: String::new(), description: None, sort: 0 };
    assert(header.name@ =~= register_header(path_of(keys@), fmt, number).name);
    assert(header.value@ =~= register_header(path_of(keys@), fmt, number).value);
    Report { header, fields: all_formats, skipped }
}

} // verus!
