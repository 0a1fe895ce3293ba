//! Register descriptions as loaded from configuration, and the walk from a
//! dotted path to the register that it names.
//!
//! A mapping from names to values is held as a list of pairs, in which an
//! entry overrides any earlier entry with the same name.

use vstd::prelude::*;

verus! {

/// One bit range within a register.
pub struct RegisterMask {
    pub start: u32,
    /// Last bit position, exclusive; used only where `width` is absent.
    pub end: Option<u32>,
    /// Number of bits; when neither this nor `end` is given the range is one bit.
    pub width: Option<u32>,
    pub description: Option<String>,
    /// Declared in configuration; rendering does not consult it.
    pub negated: Option<bool>,
    pub preferred_format: Option<String>,
    /// Literal values paired with the text shown for them.
    pub patterns: Option<Vec<(String, String)>>,
}

/// A group of registers, or a register with fields.
pub struct BitInfo {
    pub description: Option<String>,
    /// Declared total width; informational.
    pub bit_width: Option<u32>,
    /// Style inherited by the fields.
    pub preferred_format: Option<String>,
    /// Named child registers; a node without any is a register.
    pub registers: Option<Vec<(String, BitInfo)>>,
    pub fields: Option<Vec<(String, RegisterMask)>>,
}

/// The segments of a path as character sequences.
pub open spec fn path_of(keys: Seq<String>) -> Seq<Seq<char>> {
    keys.map_values(|k: String| k@)
}

/// The node stored under `key`: the last entry with that name.
pub open spec fn lookup(entries: Seq<(String, BitInfo)>, key: Seq<char>) -> Option<BitInfo>
    decreases entries.len(),
{
    if entries.len() == 0 {
        None
    } else if entries.last().0@ == key {
        Some(entries.last().1)
    } else {
        lookup(entries.drop_last(), key)
    }
}

/// Whether a node has at least one child register.
pub open spec fn has_children(node: BitInfo) -> bool {
    match node.registers {
        Some(r) => r@.len() > 0,
        None => false,
    }
}

/// The child registers of a group.
pub open spec fn children(node: BitInfo) -> Seq<(String, BitInfo)> {
    match node.registers {
        Some(r) => r@,
        None => Seq::empty(),
    }
}

/// The register that a path names: the first segment is looked up, and the
/// walk goes on into the children of what it finds, until a node without
/// children is reached. Segments left over at that point are ignored; an empty
/// path, or a segment that is not found, names nothing.
pub open spec fn resolve(path: Seq<Seq<char>>, entries: Seq<(String, BitInfo)>) -> Option<BitInfo>
    decreases path.len(),
{
    if path.len() == 0 {
        None
    } else {
        match lookup(entries, path[0]) {
            None => None,
            Some(node) => if has_children(node) {
                resolve(path.drop_first(), children(node))
            } else {
                Some(node)
            },
        }
    }
}

/// The node stored under `key` in `entries`.
pub fn lookup_entry<'a>(entries: &'a Vec<(String, BitInfo)>, key: &String) -> (r: Option<&'a BitInfo>)
    ensures
        match r {
            Some(n) => lookup(entries@, key@) == Some(*n),
            None => lookup(entries@, key@) is None,
        },
{
    let mut j: usize = entries.len();
    assert(entries@.subrange(0, j as int) =~= entries@);
    while j > 0
        invariant
            j <= entries@.len(),
            lookup(entries@, key@) == lookup(entries@.subrange(0, j as int), key@),
        decreases j,
    {
        let ghost prefix = entries@.subrange(0, j as int);
        assert(prefix.drop_last() =~= entries@.subrange(0, j - 1));
        if entries[j - 1].0 == *key {
            return Some(&entries[j - 1].1);
        }
        j = j - 1;
    }
    None
}

/// Finds the register that `keys` names in `config`.
pub fn find_config_for_name<'a>(keys: &Vec<String>, config: &'a Vec<(String, BitInfo)>) -> (r:
    Option<&'a BitInfo>)
    ensures
        match r {
            Some(n) => resolve(path_of(keys@), config@) == Some(*n),
            None => resolve(path_of(keys@), config@) is None,
        },
{
    let ghost path = path_of(keys@);
    let mut cur: &'a Vec<(String, BitInfo)> = config;
    let mut i: usize = 0;
    assert(path.subrange(0, path.len() as int) =~= path);
    while i < keys.len()
        invariant
            path == path_of(keys@),
            0 <= i <= keys@.len(),
            resolve(path, config@) == resolve(path.subrange(i as int, path.len() as int), cur@),
        decreases keys@.len() - i,
    {
        let ghost rest = path.subrange(i as int, path.len() as int);
        assert(rest[0] == keys@[i as int]@);
        assert(rest.drop_first() =~= path.subrange(i + 1, path.len() as int));
        match lookup_entry(cur, &keys[i]) {
            None => {
                return None;
            },
            Some(node) => {
                match &node.registers {
                    Some(r) => {
                        if r.len() == 0 {
                            return Some(node);
                        }
                        cur = r;
                    },
                    None => {
                        return Some(node);
                    },
                }
            },
        }
        i = i + 1;
    }
    assert(path.subrange(i as int, path.len() as int).len() == 0);
    None
}

/// Resolution reads the path from its front and stops at the first node
/// without children, so the register a path names is a node without
/// children, and segments appended after that path change nothing.
pub proof fn lemma_resolve_ignores_rest(
    path: Seq<Seq<char>>,
    rest: Seq<Seq<char>>,
    config: Seq<(String, BitInfo)>,
)
    requires
        resolve(path, config) is Some,
    ensures
        !has_children(resolve(path, config)->Some_0),
        resolve(path + rest, config) == resolve(path, config),
    decreases path.len(),
{
    let whole = path + rest;
    assert(whole[0] == path[0]);
    let node = lookup(config, path[0])->Some_0;
    if has_children(node) {
        assert(whole.drop_first() =~= path.drop_first() + rest);
        lemma_resolve_ignores_rest(path.drop_first(), rest, children(node));
    }
}

/// What `lookup` finds after the entries of `later` are placed after those
/// of `base`: the entry of `later` where it has one, else that of `base`.
pub proof fn lemma_lookup_append(
    base: Seq<(String, BitInfo)>,
    later: Seq<(String, BitInfo)>,
    key: Seq<char>,
)
    ensures
        lookup(base + later, key) == match lookup(later, key) {
            Some(n) => Some(n),
            None => lookup(base, key),
        },
    decreases later.len(),
{
    if later.len() == 0 {
        assert(base + later =~= base);
    } else {
        assert((base + later).drop_last() =~= base + later.drop_last());
        lemma_lookup_append(base, later.drop_last(), key);
    }
}

/// Merges the entries of a document found farther from the working
/// directory into `base`: for a name that both hold, the entry of `later`
/// wins.
pub fn merge_configs(base: &mut Vec<(String, BitInfo)>, later: Vec<(String, BitInfo)>)
    ensures
        forall|key: Seq<char>|
            #[trigger] lookup(final(base)@, key) == match lookup(later@, key) {
                Some(n) => Some(n),
                None => lookup(old(base)@, key),
            },
{
    let ghost before = base@;
    let mut later = later;
    let ghost added = later@;
    base.append(&mut later);
    assert forall|key: Seq<char>|
        #[trigger] lookup(base@, key) == match lookup(added, key) {
            Some(n) => Some(n),
            None => lookup(before, key),
        } by {
        lemma_lookup_append(before, added, key);
    }
}

} // verus!
