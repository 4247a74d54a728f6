//! Boot loader data that is needed before drivers are loaded: the ACPI root
//! pointer, boot modules and the device tree.

use vstd::prelude::*;
use vstd::utf8::valid_utf8;
use crate::bytes::{copy_range, get_u32, same_bytes, u32_at};
use crate::lists::{first_where, lemma_first_where};
use crate::text::is_utf8;

verus! {

/// Bytes of the first version of the root pointer.
pub const RSDP_V1_SIZE: usize = 20;

/// Fewest bytes of the second version.
pub const RSDP_V2_MIN_SIZE: usize = 36;

/// Most bytes of a root pointer.
pub const RSDP_MAX_SIZE: usize = 4096;

/// First word of a device tree.
pub const FDT_MAGIC: u32 = 0xD00D_FEED;

/// Bytes of a device tree's header.
pub const FDT_HEADER_LEN: usize = 40;

/// Most bytes of a device tree.
pub const FDT_MAX_LEN: usize = 0x20_0000;

/// The sum of bytes, of which only the last eight bits count.
pub open spec fn byte_sum(bytes: Seq<u8>) -> int
    decreases bytes.len(),
{
    if bytes.len() == 0 {
        0
    } else {
        (byte_sum(bytes.drop_last()) + bytes.last()) % 0x100
    }
}

/// Adds up bytes, keeping the last eight bits.
pub fn checksum(bytes: &[u8]) -> (sum: u8)
    ensures
        sum == byte_sum(bytes@),
{
    let mut sum: u8 = 0;
    let mut at: usize = 0;
    assert(bytes@.take(0) =~= Seq::empty());
    while at < bytes.len()
        invariant
            at <= bytes@.len(),
            sum == byte_sum(bytes@.take(at as int)),
        decreases bytes@.len() - at,
    {
        assert(bytes@.take(at + 1).drop_last() =~= bytes@.take(at as int));
        sum = sum.wrapping_add(bytes[at]);
        at = at + 1;
    }
    assert(bytes@.take(at as int) =~= bytes@);
    sum
}

/// The signature of a root pointer.
pub open spec fn rsdp_signature() -> Seq<u8> {
    seq![0x52u8, 0x53, 0x44, 0x20, 0x50, 0x54, 0x52, 0x20]
}

/// The size of the root pointer at the start of memory, if it is a sound one.
pub open spec fn rsdp_size(bytes: Seq<u8>) -> Option<int> {
    if bytes.take(8) != rsdp_signature() || byte_sum(bytes.take(20)) != 0 {
        None
    } else if bytes[15] < 2 {
        Some(20)
    } else {
        let length = u32_at(bytes, 20);
        if RSDP_V2_MIN_SIZE <= length <= RSDP_MAX_SIZE && byte_sum(bytes.take(length as int))
            == 0 {
            Some(length as int)
        } else {
            None
        }
    }
}

/// Finds the size of the root pointer in the memory that starts with it.
pub fn rsdp_length(bytes: &[u8]) -> (length: Option<usize>)
    requires
        bytes@.len() >= RSDP_MAX_SIZE,
    ensures
        match length {
            Some(n) => rsdp_size(bytes@) == Some(n as int),
            None => rsdp_size(bytes@).is_none(),
        },
{
    let signature: Vec<u8> = vec![0x52u8, 0x53, 0x44, 0x20, 0x50, 0x54, 0x52, 0x20];
    assert(signature@ =~= rsdp_signature());
    let start = copy_range(bytes, 0, 8);
    assert(start@ =~= bytes@.take(8));
    let first = copy_range(bytes, 0, RSDP_V1_SIZE);
    assert(first@ =~= bytes@.take(20));
    if !same_bytes(&start, &signature) || checksum(&first) != 0 {
        return None;
    }
    if bytes[15] < 2 {
        return Some(RSDP_V1_SIZE);
    }
    let length: usize = get_u32(bytes, 20) as usize;
    if length < RSDP_V2_MIN_SIZE || length > RSDP_MAX_SIZE {
        return None;
    }
    let complete = copy_range(bytes, 0, length);
    assert(complete@ =~= bytes@.take(length as int));
    if checksum(&complete) == 0 {
        Some(length)
    } else {
        None
    }
}

/// Finds the root pointer in the memory that starts with it.
pub fn acpi_rsdp(bytes: &[u8]) -> (rsdp: Option<Vec<u8>>)
    requires
        bytes@.len() >= RSDP_MAX_SIZE,
    ensures
        match rsdp {
            Some(found) => rsdp_size(bytes@) matches Some(n) && found@ == bytes@.take(n),
            None => rsdp_size(bytes@).is_none(),
        },
{
    match rsdp_length(bytes) {
        Some(length) => {
            let found = copy_range(bytes, 0, length);
            assert(found@ =~= bytes@.take(length as int));
            Some(found)
        },
        None => None,
    }
}

/// The big-endian number in the four bytes at `at`.
pub open spec fn be32(bytes: Seq<u8>, at: int) -> u32 {
    (0x100_0000 * bytes[at] + 0x1_0000 * bytes[at + 1] + 0x100 * bytes[at + 2] + bytes[at
        + 3]) as u32
}

fn read_be32(bytes: &[u8], at: usize) -> (value: u32)
    requires
        at + 4 <= bytes@.len(),
    ensures
        value == be32(bytes@, at as int),
{
    assert(bytes@.len() == bytes.len());
    0x100_0000 * (bytes[at] as u32) + 0x1_0000 * (bytes[at + 1] as u32) + 0x100 * (bytes[at
        + 2] as u32) + bytes[at + 3] as u32
}

/// The size that the device tree at the start of memory tells, if it is one.
pub open spec fn tree_size(bytes: Seq<u8>) -> Option<int> {
    if be32(bytes, 0) == FDT_MAGIC && FDT_HEADER_LEN <= be32(bytes, 4) <= FDT_MAX_LEN {
        Some(be32(bytes, 4) as int)
    } else {
        None
    }
}

/// Finds the size of the device tree in the memory that starts with it.
pub fn dtb_length(prefix: &[u8]) -> (length: Option<usize>)
    requires
        prefix@.len() >= 8,
    ensures
        match length {
            Some(n) => tree_size(prefix@) == Some(n as int),
            None => tree_size(prefix@).is_none(),
        },
{
    let magic: u32 = read_be32(prefix, 0);
    let length: usize = read_be32(prefix, 4) as usize;
    if magic != FDT_MAGIC || length < FDT_HEADER_LEN || length > FDT_MAX_LEN {
        return None;
    }
    Some(length)
}

/// The device tree that a module holds, if it holds one.
pub open spec fn tree_of(bytes: Seq<u8>) -> Option<Seq<u8>> {
    if bytes.len() < 8 {
        None
    } else {
        match tree_size(bytes) {
            Some(length) => if length <= bytes.len() {
                Some(bytes.take(length))
            } else {
                None
            },
            None => None,
        }
    }
}

/// Finds the device tree that a module holds.
pub fn validate_dtb(bytes: &[u8]) -> (tree: Option<Vec<u8>>)
    ensures
        match tree {
            Some(found) => tree_of(bytes@) == Some(found@),
            None => tree_of(bytes@).is_none(),
        },
{
    if bytes.len() < 8 {
        return None;
    }
    match dtb_length(bytes) {
        Some(length) => {
            if length > bytes.len() {
                return None;
            }
            let found = copy_range(bytes, 0, length);
            assert(found@ =~= bytes@.take(length as int));
            Some(found)
        },
        None => None,
    }
}

/// A boot module.
pub struct Module {
    /// Tag that it was given.
    pub tag: Vec<u8>,
    /// Path that it was loaded from.
    pub path: Vec<u8>,
    /// Contents, if they are mapped.
    pub bytes: Option<Vec<u8>>,
}

/// Which modules have a tag.
pub open spec fn tagged(tag: Seq<u8>) -> spec_fn(Module) -> bool {
    |m: Module| m.tag@ == tag
}

/// The contents of the first module with a tag.
pub open spec fn module_of(modules: Seq<Module>, tag: Seq<u8>) -> Option<Seq<u8>> {
    let at = first_where(modules, tagged(tag), 0);
    if at < modules.len() {
        match modules[at].bytes {
            Some(bytes) => Some(bytes@),
            None => None,
        }
    } else {
        None
    }
}

/// Finds the contents of the first module with a tag.
pub fn boot_module(modules: &Vec<Module>, tag: &[u8]) -> (bytes: Option<Vec<u8>>)
    ensures
        match bytes {
            Some(found) => module_of(modules@, tag@) == Some(found@),
            None => module_of(modules@, tag@).is_none(),
        },
{
    let mut at: usize = 0;
    while at < modules.len()
        invariant
            at <= modules@.len(),
            first_where(modules@, tagged(tag@), 0) == first_where(
                modules@,
                tagged(tag@),
                at as int,
            ),
        decreases modules@.len() - at,
    {
        if same_bytes(&modules[at].tag, tag) {
            return match &modules[at].bytes {
                Some(bytes) => {
                    let copy = copy_range(bytes, 0, bytes.len());
                    assert(copy@ =~= bytes@);
                    Some(copy)
                },
                None => None,
            };
        }
        at = at + 1;
    }
    None
}

/// The tags under which a device tree is looked for, in this order.
pub open spec fn tree_tags() -> Seq<Seq<u8>> {
    seq![
        seq![0x64u8, 0x74, 0x62],
        seq![0x64u8, 0x65, 0x76, 0x69, 0x63, 0x65, 0x74, 0x72, 0x65, 0x65],
        seq![0x64u8, 0x65, 0x76, 0x69, 0x63, 0x65, 0x2d, 0x74, 0x72, 0x65, 0x65],
    ]
}

/// The device tree in the first module with a tag.
pub open spec fn tagged_tree(modules: Seq<Module>, tag: Seq<u8>) -> Option<Seq<u8>> {
    match module_of(modules, tag) {
        Some(bytes) => tree_of(bytes),
        None => None,
    }
}

/// The device tree in a module.
pub open spec fn module_tree(module: Module) -> Option<Seq<u8>> {
    match module.bytes {
        Some(bytes) => tree_of(bytes@),
        None => None,
    }
}

/// Whether a module was loaded from a device tree file.
pub open spec fn is_tree_file(module: Module) -> bool {
    let path = module.path@;
    path.len() >= 4 && path.skip(path.len() - 4) == seq![0x2eu8, 0x64, 0x74, 0x62]
}

/// Which modules hold a device tree and, if `files`, were loaded from a file of
/// that kind.
pub open spec fn holds_tree(files: bool) -> spec_fn(Module) -> bool {
    |m: Module| module_tree(m).is_some() && (files ==> is_tree_file(m))
}

/// The first device tree in any module.
pub open spec fn any_tree(modules: Seq<Module>, files: bool) -> Option<Seq<u8>> {
    let at = first_where(modules, holds_tree(files), 0);
    if at < modules.len() {
        module_tree(modules[at])
    } else {
        None
    }
}

/// The device tree among the modules: by its tags, by the name of its file, or
/// wherever there is one.
pub open spec fn tree_module(modules: Seq<Module>) -> Option<Seq<u8>> {
    let one = tagged_tree(modules, tree_tags()[0]);
    let two = tagged_tree(modules, tree_tags()[1]);
    let three = tagged_tree(modules, tree_tags()[2]);
    let file = any_tree(modules, true);
    if one.is_some() {
        one
    } else if two.is_some() {
        two
    } else if three.is_some() {
        three
    } else if file.is_some() {
        file
    } else {
        any_tree(modules, false)
    }
}

fn find_tagged_tree(modules: &Vec<Module>, tag: &[u8]) -> (tree: Option<Vec<u8>>)
    ensures
        match tree {
            Some(found) => tagged_tree(modules@, tag@) == Some(found@),
            None => tagged_tree(modules@, tag@).is_none(),
        },
{
    match boot_module(modules, tag) {
        Some(bytes) => validate_dtb(&bytes),
        None => None,
    }
}

fn find_any_tree(modules: &Vec<Module>, files: bool) -> (tree: Option<Vec<u8>>)
    ensures
        match tree {
            Some(found) => any_tree(modules@, files) == Some(found@),
            None => any_tree(modules@, files).is_none(),
        },
{
    let suffix: Vec<u8> = vec![0x2eu8, 0x64, 0x74, 0x62];
    assert(suffix@ =~= seq![0x2eu8, 0x64, 0x74, 0x62]);
    let mut at: usize = 0;
    while at < modules.len()
        invariant
            at <= modules@.len(),
            suffix@ == seq![0x2eu8, 0x64, 0x74, 0x62],
            first_where(modules@, holds_tree(files), 0) == first_where(
                modules@,
                holds_tree(files),
                at as int,
            ),
        decreases modules@.len() - at,
    {
        let module = &modules[at];
        let length: usize = module.path.len();
        let is_file: bool = if length >= 4 {
            let end = copy_range(&module.path, length - 4, length);
            assert(end@ =~= module.path@.skip(length - 4));
            same_bytes(&end, &suffix)
        } else {
            false
        };
        assert(is_file == is_tree_file(*module));
        if is_file || !files {
            if let Some(bytes) = &module.bytes {
                if let Some(tree) = validate_dtb(bytes) {
                    return Some(tree);
                }
            }
        }
        at = at + 1;
    }
    None
}

/// Finds the device tree among the modules.
pub fn dtb_module(modules: &Vec<Module>) -> (tree: Option<Vec<u8>>)
    ensures
        match tree {
            Some(found) => tree_module(modules@) == Some(found@),
            None => tree_module(modules@).is_none(),
        },
{
    let one: Vec<u8> = vec![0x64u8, 0x74, 0x62];
    assert(one@ =~= tree_tags()[0]);
    if let Some(tree) = find_tagged_tree(modules, &one) {
        return Some(tree);
    }
    let two: Vec<u8> = vec![0x64u8, 0x65, 0x76, 0x69, 0x63, 0x65, 0x74, 0x72, 0x65, 0x65];
    assert(two@ =~= tree_tags()[1]);
    if let Some(tree) = find_tagged_tree(modules, &two) {
        return Some(tree);
    }
    let three: Vec<u8> = vec![0x64u8, 0x65, 0x76, 0x69, 0x63, 0x65, 0x2d, 0x74, 0x72, 0x65, 0x65];
    assert(three@ =~= tree_tags()[2]);
    if let Some(tree) = find_tagged_tree(modules, &three) {
        return Some(tree);
    }
    if let Some(tree) = find_any_tree(modules, true) {
        return Some(tree);
    }
    find_any_tree(modules, false)
}

/// Where a device tree came from.
#[derive(Copy, Clone, Debug, PartialEq, Eq, Structural)]
pub enum DtbSource {
    /// Nowhere yet.
    Unknown,
    /// A boot module.
    Module,
    /// The firmware.
    Firmware,
}

/// Chooses the device tree: a boot module goes before what the firmware gave,
/// of which only a valid tree counts.
pub fn dtb(modules: &Vec<Module>, firmware: Option<Vec<u8>>, source: &mut DtbSource) -> (tree: Option<
    Vec<u8>,
>)
    ensures
        ({
            let module = tree_module(modules@);
            match tree {
                Some(found) => if module.is_some() {
                    module == Some(found@) && *final(source) == DtbSource::Module
                } else {
                    firmware matches Some(given) && tree_of(given@) == Some(found@)
                        && *final(source) == DtbSource::Firmware
                },
                None => {
                    &&& module.is_none()
                    &&& firmware matches Some(given) ==> tree_of(given@).is_none()
                    &&& *final(source) == *old(source)
                },
            }
        }),
{
    if let Some(tree) = dtb_module(modules) {
        *source = DtbSource::Module;
        return Some(tree);
    }
    match firmware {
        Some(given) => match validate_dtb(&given) {
            Some(tree) => {
                *source = DtbSource::Firmware;
                Some(tree)
            },
            None => None,
        },
        None => None,
    }
}

/// Describes where the device tree came from.
pub fn dtb_source(source: DtbSource) -> (text: Option<&'static str>)
    ensures
        match source {
            DtbSource::Module => text matches Some(t) && t@ == "Limine module"@,
            DtbSource::Firmware => text matches Some(t) && t@ == "firmware response"@,
            DtbSource::Unknown => text.is_none(),
        },
{
    match source {
        DtbSource::Module => Some("Limine module"),
        DtbSource::Firmware => Some("firmware response"),
        DtbSource::Unknown => None,
    }
}

/// What may follow inside a node of a device tree.
#[derive(Copy, Clone, Debug, PartialEq, Eq, Structural)]
pub enum Phase {
    /// Properties, nodes, padding or the end.
    Properties,
    /// Nodes, padding or the end.
    Children,
    /// Padding or the end.
    Tail,
}

/// Where the text at a place ends: before the next zero.
pub open spec fn text_end(bytes: Seq<u8>, at: int) -> int {
    first_where(bytes, |b: u8| b == 0, at)
}

/// Whether there is zero-terminated UTF-8 text at a place.
pub open spec fn reads_text(bytes: Seq<u8>, at: int) -> bool {
    &&& 0 <= at <= bytes.len()
    &&& text_end(bytes, at) < bytes.len()
    &&& valid_utf8(bytes.subrange(at, text_end(bytes, at)))
}

/// The length rounded up to whole words.
pub open spec fn words(length: int) -> int {
    (length + 3) / 4 * 4
}

/// Deepest nodes that are read: the reader of trees calls itself for each
/// level, and a deeper tree could take more stack than there is.
pub const MAX_TREE_DEPTH: usize = 512;

/// Whether text is the name of a node, apart from its address.
pub open spec fn names_node(text: Seq<u8>, name: Seq<u8>) -> bool {
    &&& text.len() >= name.len()
    &&& text.take(name.len() as int) == name
    &&& text.len() == name.len() || text[name.len() as int] == 0x40
}

/// The name of the node of processors.
pub open spec fn cpus_name() -> Seq<u8> {
    seq![0x63u8, 0x70, 0x75, 0x73]
}

/// The name of the node of one processor.
pub open spec fn cpu_name() -> Seq<u8> {
    seq![0x63u8, 0x70, 0x75]
}

/// What a tree is read for.
#[derive(Copy, Clone, Debug, PartialEq, Eq, Structural)]
pub enum Goal {
    /// The frequency that the node of processors tells.
    Frequency,
    /// The processor behind this many others.
    Processor(usize),
}

/// What a scan knows.
#[derive(Copy, Clone, Debug, PartialEq, Eq, Structural)]
pub struct Seen {
    /// Whether it is in the node of processors.
    pub cpus: bool,
    /// Whether it is in the node of one processor.
    pub cpu: bool,
    /// Whether it met a property that may stand for the path of the node of
    /// processors.
    pub alias: bool,
    /// What is still to be read.
    pub goal: Goal,
}

/// A property name that stands for the path of that node.
pub open spec fn cpus_alias() -> Seq<u8> {
    seq![0x2fu8, 0x63, 0x70, 0x75, 0x73]
}

/// The name of the property that tells the frequency of the platform counter.
pub open spec fn timebase_name() -> Seq<u8> {
    seq![
        0x74u8, 0x69, 0x6d, 0x65, 0x62, 0x61, 0x73, 0x65, 0x2d, 0x66, 0x72, 0x65, 0x71, 0x75, 0x65,
        0x6e, 0x63, 0x79,
    ]
}

/// How a scan that meets no node of processors ends; not where a property may
/// stand for the path of that node, since it could stand for itself.
pub open spec fn without_cpus(alias: bool) -> Option<bool> {
    if alias {
        None
    } else {
        Some(false)
    }
}

/// Reads the nodes of a device tree from word `at` on, inside `depth` nodes.
///
/// Nothing is wrong where there is a result; it tells whether the root has a
/// node of processors. Reading ends behind the wanted processor, or behind the
/// property that tells the frequency, if there is one, and else behind the node
/// of processors or its properties; without such a node it ends where the root
/// does. A node has its name, its properties and its nodes in this order, and
/// may be padded before its end; the node of processors may be padded anywhere.
pub open spec fn scan(
    nodes: Seq<u8>,
    names: Seq<u8>,
    at: int,
    depth: nat,
    phase: Phase,
    seen: Seen,
) -> Option<bool>
    decreases if 0 <= at < nodes.len() { nodes.len() - at } else { 0 },
{
    let top = depth == 1;
    let loose = depth == 2 && seen.cpus;
    let brief = loose && seen.goal == Goal::Frequency;
    if at < 0 || depth == 0 || depth > MAX_TREE_DEPTH {
        None
    } else if at + 4 > nodes.len() {
        if top {
            without_cpus(seen.alias)
        } else if brief {
            Some(true)
        } else {
            None
        }
    } else {
        proof {
            if at + 4 <= nodes.len() {
                lemma_first_where(nodes, |b: u8| b == 0, at + 4);
            }
        }
        let token = be32(nodes, at);
        if brief && token != 3 && token != 4 {
            Some(true)
        } else if token == 1 && phase != Phase::Tail {
            let end = text_end(nodes, at + 4);
            let name = nodes.subrange(at + 4, end);
            if !reads_text(nodes, at + 4) {
                None
            } else {
                scan(
                    nodes,
                    names,
                    at + 4 + words(end - (at + 4) + 1),
                    depth + 1,
                    Phase::Properties,
                    Seen {
                        cpus: seen.cpus || (top && names_node(name, cpus_name())),
                        cpu: if loose {
                            names_node(name, cpu_name())
                        } else {
                            seen.cpu
                        },
                        ..seen
                    },
                )
            }
        } else if token == 3 && phase == Phase::Properties {
            if at + 12 > nodes.len() {
                None
            } else {
                let length = be32(nodes, at + 4);
                let name = be32(nodes, at + 8);
                let text = names.subrange(name as int, text_end(names, name as int));
                if at + 12 + length > nodes.len() || !reads_text(names, name as int) {
                    None
                } else if brief && text == timebase_name() {
                    Some(true)
                } else {
                    scan(
                        nodes,
                        names,
                        at + 12 + words(length as int),
                        depth,
                        Phase::Properties,
                        Seen { alias: seen.alias || text == cpus_alias(), ..seen },
                    )
                }
            }
        } else if top {
            without_cpus(seen.alias)
        } else if token == 4 {
            scan(
                nodes,
                names,
                at + 4,
                depth,
                if loose {
                    phase
                } else {
                    Phase::Tail
                },
                seen,
            )
        } else if loose {
            Some(true)
        } else if token == 2 {
            if depth == 3 && seen.cpus && seen.cpu && seen.goal == Goal::Processor(0) {
                Some(true)
            } else {
                scan(
                    nodes,
                    names,
                    at + 4,
                    (depth - 1) as nat,
                    Phase::Children,
                    left(depth as int, seen),
                )
            }
        } else {
            None
        }
    }
}

/// What a scan knows after it left a node at a depth.
pub open spec fn left(depth: int, seen: Seen) -> Seen {
    match seen.goal {
        Goal::Processor(others) if depth == 3 && seen.cpus && seen.cpu && others > 0 => Seen {
            cpu: false,
            goal: Goal::Processor((others - 1) as usize),
            ..seen
        },
        _ => seen,
    }
}

/// Where padding from a place on ends.
pub open spec fn skip_padding(nodes: Seq<u8>, at: int) -> int
    decreases nodes.len() - at,
{
    if at + 4 <= nodes.len() && be32(nodes, at) == 4 {
        skip_padding(nodes, at + 4)
    } else {
        at
    }
}

/// The block of nodes.
pub open spec fn nodes_of(tree: Seq<u8>) -> Seq<u8> {
    tree.subrange(be32(tree, 8) as int, be32(tree, 8) + be32(tree, 36))
}

/// The block of names.
pub open spec fn names_of(tree: Seq<u8>) -> Seq<u8> {
    tree.subrange(be32(tree, 12) as int, be32(tree, 12) + be32(tree, 32))
}

/// Reads a device tree as far as `goal` takes.
///
/// Nothing is wrong where there is a result; it tells whether the tree has a
/// node of processors.
#[verifier::opaque]
pub open spec fn surveyed(tree: Seq<u8>, goal: Goal) -> Option<bool> {
    if tree.len() < 40 || tree.len() > FDT_MAX_LEN || be32(tree, 0) != FDT_MAGIC || be32(tree, 4) > tree.len() || be32(
        tree,
        8,
    ) + be32(tree, 36) > tree.len() || be32(tree, 12) + be32(tree, 32) > tree.len() {
        None
    } else {
        let nodes = nodes_of(tree);
        let at = skip_padding(nodes, 0);
        if at + 4 > nodes.len() || be32(nodes, at) != 1 {
            Some(false)
        } else if !reads_text(nodes, at + 4) {
            None
        } else {
            let end = text_end(nodes, at + 4);
            if end != at + 4 && nodes[at + 4] != 0x40 {
                None
            } else {
                scan(
                    nodes,
                    names_of(tree),
                    skip_padding(nodes, at + 4 + words(end - (at + 4) + 1)),
                    1,
                    Phase::Properties,
                    Seen { cpus: false, cpu: false, alias: false, goal },
                )
            }
        }
    }
}

/// What the device tree says of the platform counter: the bytes of the
/// `timebase-frequency` property of the node `/cpus`, as `fdt` finds them.
pub uninterp spec fn timebase_property(tree: Seq<u8>) -> Option<Seq<u8>>;

/// Reads the `timebase-frequency` property of the node `/cpus`.
///
/// Calls `fdt::Fdt::new`, `fdt::Fdt::find_node` and the node's `property`. The
/// crate panics where a node or a property is cut short or has no readable
/// name; on a tree that was surveyed it does not. Without a node `/cpus` there
/// is no property. Which bytes it finds is not stated further.
#[verifier::external_body]
fn read_timebase(tree: &[u8]) -> (value: Option<Vec<u8>>)
    requires
        surveyed(tree@, Goal::Frequency).is_some(),
    ensures
        match value {
            Some(bytes) => timebase_property(tree@) == Some(bytes@),
            None => timebase_property(tree@).is_none(),
        },
        surveyed(tree@, Goal::Frequency) == Some(false) ==> value.is_none(),
{
    let tree = fdt::Fdt::new(tree).ok()?;
    let property = tree.find_node("/cpus")?.property("timebase-frequency")?;
    Some(property.value.to_vec())
}

/// What the device tree says of the extensions of the processor behind `others`
/// others, if there is one: the bytes of its `riscv,isa-extensions` and
/// `riscv,isa` properties, as `fdt` finds them.
pub uninterp spec fn isa_properties(tree: Seq<u8>, others: nat) -> Option<
    (Option<Seq<u8>>, Option<Seq<u8>>),
>;

/// An optional value, viewed.
pub open spec fn viewed(value: Option<Vec<u8>>) -> Option<Seq<u8>> {
    match value {
        Some(bytes) => Some(bytes@),
        None => None,
    }
}

/// Reads the properties of one processor that tell its extensions.
///
/// Calls `fdt::Fdt::new`, `nth` of `fdt::Fdt::cpus` and the processor's
/// `property`. The crate panics where a node or a property on the way is cut
/// short or has no readable name, and without a node `/cpus`; on a tree that was
/// surveyed up to that processor and has such a node it does not. A tree has
/// fewer processors than bytes. Which bytes it finds is not stated.
#[verifier::external_body]
fn read_isa(tree: &[u8], others: usize) -> (found: Option<(Option<Vec<u8>>, Option<Vec<u8>>)>)
    requires
        surveyed(tree@, Goal::Processor(others)) == Some(true),
    ensures
        match found {
            Some(cpu) => isa_properties(tree@, others as nat) == Some((viewed(cpu.0), viewed(cpu.1))),
            None => isa_properties(tree@, others as nat).is_none(),
        },
        others >= tree@.len() ==> found.is_none(),
{
    let tree = fdt::Fdt::new(tree).ok()?;
    let cpu = tree.cpus().nth(others)?;
    Some((
        cpu.property("riscv,isa-extensions").map(|property| property.value.to_vec()),
        cpu.property("riscv,isa").map(|property| property.value.to_vec()),
    ))
}

fn check_text(bytes: &[u8], at: usize) -> (end: Option<usize>)
    ensures
        match end {
            Some(e) => reads_text(bytes@, at as int) && e == text_end(bytes@, at as int) && at <= e
                < bytes@.len(),
            None => !reads_text(bytes@, at as int),
        },
{
    if at > bytes.len() {
        return None;
    }
    let ghost zero = |b: u8| b == 0;
    let mut end: usize = at;
    while end < bytes.len() && bytes[end] != 0
        invariant
            at <= end <= bytes@.len(),
            zero == (|b: u8| b == 0),
            first_where(bytes@, zero, at as int) == first_where(bytes@, zero, end as int),
        decreases bytes@.len() - end,
    {
        end = end + 1;
    }
    if end == bytes.len() {
        return None;
    }
    let text = copy_range(bytes, at, end);
    assert(text@ =~= bytes@.subrange(at as int, end as int));
    if is_utf8(&text) {
        Some(end)
    } else {
        None
    }
}

fn is_node_name(text: &Vec<u8>, name: &Vec<u8>) -> (named: bool)
    ensures
        named == names_node(text@, name@),
{
    if text.len() < name.len() {
        return false;
    }
    let start = copy_range(text, 0, name.len());
    assert(start@ =~= text@.take(name@.len() as int));
    same_bytes(&start, name) && (text.len() == name.len() || text[name.len()] == 0x40)
}

enum Step {
    Fails,
    Ends(bool),
    Goes(usize, usize, Phase, Seen),
}

fn scan_node(nodes: &[u8], names: &[u8], at: usize, depth: usize, seen: Seen) -> (step: Step)
    requires
        1 <= depth <= MAX_TREE_DEPTH,
        at + 4 <= nodes@.len() <= FDT_MAX_LEN,
        be32(nodes@, at as int) == 1,
        !(depth == 2 && seen.cpus && seen.goal == Goal::Frequency),
    ensures
        step_agrees(step, nodes@, names@, at as int, depth as nat, Phase::Properties, seen),
        step_agrees(step, nodes@, names@, at as int, depth as nat, Phase::Children, seen),
{
    proof {
        lemma_first_where(nodes@, |b: u8| b == 0, at + 4);
    }
    let end: usize = match check_text(nodes, at + 4) {
        Some(end) => end,
        None => {
            return Step::Fails;
        },
    };
    let name = copy_range(nodes, at + 4, end);
    assert(name@ =~= nodes@.subrange(at + 4, end as int));
    let cpus: Vec<u8> = vec![0x63u8, 0x70, 0x75, 0x73];
    assert(cpus@ =~= cpus_name());
    let cpu: Vec<u8> = vec![0x63u8, 0x70, 0x75];
    assert(cpu@ =~= cpu_name());
    let inside = Seen {
        cpus: seen.cpus || (depth == 1 && is_node_name(&name, &cpus)),
        cpu: if depth == 2 && seen.cpus {
            is_node_name(&name, &cpu)
        } else {
            seen.cpu
        },
        ..seen
    };
    let size: usize = (end - (at + 4) + 1 + 3) / 4 * 4;
    assert(size == words(end - (at + 4) + 1));
    Step::Goes(at + 4 + size, depth + 1, Phase::Properties, inside)
}

fn scan_property(nodes: &[u8], names: &[u8], at: usize, depth: usize, seen: Seen) -> (step: Step)
    requires
        1 <= depth <= MAX_TREE_DEPTH,
        at + 4 <= nodes@.len() <= FDT_MAX_LEN,
        be32(nodes@, at as int) == 3,
    ensures
        step_agrees(step, nodes@, names@, at as int, depth as nat, Phase::Properties, seen),
{
    let length: usize = nodes.len();
    if length < 12 || at > length - 12 {
        return Step::Fails;
    }
    let size: usize = read_be32(nodes, at + 4) as usize;
    let name: usize = read_be32(nodes, at + 8) as usize;
    if size > length - (at + 12) {
        return Step::Fails;
    }
    let end: usize = match check_text(names, name) {
        Some(end) => end,
        None => {
            return Step::Fails;
        },
    };
    let text = copy_range(names, name, end);
    assert(text@ =~= names@.subrange(name as int, end as int));
    let alias: Vec<u8> = vec![0x2fu8, 0x63, 0x70, 0x75, 0x73];
    assert(alias@ =~= cpus_alias());
    let met: bool = seen.alias || same_bytes(&text, &alias);
    if depth == 2 && seen.cpus && seen.goal == Goal::Frequency {
        let wanted: Vec<u8> = vec![
            0x74u8, 0x69, 0x6d, 0x65, 0x62, 0x61, 0x73, 0x65, 0x2d, 0x66, 0x72, 0x65, 0x71, 0x75,
            0x65, 0x6e, 0x63, 0x79,
        ];
        assert(wanted@ =~= timebase_name());
        if same_bytes(&text, &wanted) {
            return Step::Ends(true);
        }
    }
    let padding: usize = if size % 4 == 0 {
        0
    } else {
        4 - size % 4
    };
    assert(size + padding == words(size as int));
    Step::Goes(at + 12 + size + padding, depth, Phase::Properties, Seen { alias: met, ..seen })
}

/// Whether a step leads to the result of the scan.
spec fn step_agrees(
    step: Step,
    nodes: Seq<u8>,
    names: Seq<u8>,
    at: int,
    depth: nat,
    phase: Phase,
    seen: Seen,
) -> bool {
    let result = scan(nodes, names, at, depth, phase, seen);
    match step {
        Step::Fails => result.is_none(),
        Step::Ends(found) => result == Some(found),
        Step::Goes(next, inside, after, knows) => {
            &&& at < next <= nodes.len() + 4
            &&& at < nodes.len()
            &&& 1 <= inside <= MAX_TREE_DEPTH + 1
            &&& result == scan(nodes, names, next as int, inside as nat, after, knows)
        },
    }
}

fn scan_step(nodes: &[u8], names: &[u8], at: usize, depth: usize, phase: Phase, seen: Seen) -> (step:
    Step)
    requires
        depth >= 1,
        nodes@.len() <= FDT_MAX_LEN,
    ensures
        step_agrees(step, nodes@, names@, at as int, depth as nat, phase, seen),
{
    let length: usize = nodes.len();
    assert(length == nodes@.len());
    let top: bool = depth == 1;
    let loose: bool = depth == 2 && seen.cpus;
    let brief: bool = loose && seen.goal == Goal::Frequency;
    if depth > MAX_TREE_DEPTH {
        return Step::Fails;
    }
    if length < 4 || at > length - 4 {
        return if top && !seen.alias {
            Step::Ends(false)
        } else if brief {
            Step::Ends(true)
        } else {
            Step::Fails
        };
    }
    let token: u32 = read_be32(nodes, at);
    if brief && token != 3 && token != 4 {
        return Step::Ends(true);
    }
    if token == 1 && phase != Phase::Tail {
        return scan_node(nodes, names, at, depth, seen);
    }
    if token == 3 && phase == Phase::Properties {
        return scan_property(nodes, names, at, depth, seen);
    }
    if top {
        return if seen.alias {
            Step::Fails
        } else {
            Step::Ends(false)
        };
    }
    if token == 4 {
        return Step::Goes(
            at + 4,
            depth,
            if loose {
                phase
            } else {
                Phase::Tail
            },
            seen,
        );
    }
    if loose {
        return Step::Ends(true);
    }
    if token == 2 {
        let mut after = seen;
        if depth == 3 && seen.cpus && seen.cpu {
            if let Goal::Processor(others) = seen.goal {
                if others == 0 {
                    return Step::Ends(true);
                }
                after.cpu = false;
                after.goal = Goal::Processor(others - 1);
            }
        }
        return Step::Goes(at + 4, depth - 1, Phase::Children, after);
    }
    Step::Fails
}

fn scan_nodes(nodes: &[u8], names: &[u8], start: usize, goal: Goal) -> (found: Option<bool>)
    requires
        nodes@.len() <= FDT_MAX_LEN,
    ensures
        found == scan(
            nodes@,
            names@,
            start as int,
            1,
            Phase::Properties,
            Seen { cpus: false, cpu: false, alias: false, goal },
        ),
{
    let mut at: usize = start;
    let mut depth: usize = 1;
    let mut phase = Phase::Properties;
    let mut seen = Seen { cpus: false, cpu: false, alias: false, goal };
    let ghost first = seen;
    loop
        invariant
            nodes@.len() <= FDT_MAX_LEN,
            depth >= 1,
            first == (Seen { cpus: false, cpu: false, alias: false, goal }),
            scan(nodes@, names@, start as int, 1, Phase::Properties, first) == scan(
                nodes@,
                names@,
                at as int,
                depth as nat,
                phase,
                seen,
            ),
        decreases if at < nodes@.len() { nodes@.len() - at } else { 0 },
    {
        match scan_step(nodes, names, at, depth, phase, seen) {
            Step::Fails => {
                return None;
            },
            Step::Ends(found) => {
                return Some(found);
            },
            Step::Goes(next, inside, after, knows) => {
                at = next;
                depth = inside;
                phase = after;
                seen = knows;
            },
        }
    }
}

fn past_padding(nodes: &[u8], start: usize) -> (at: usize)
    requires
        start <= nodes@.len() + 4,
        nodes@.len() <= FDT_MAX_LEN,
    ensures
        at == skip_padding(nodes@, start as int),
        at <= nodes@.len() + 4,
{
    let mut at: usize = start;
    while nodes.len() >= 4 && at <= nodes.len() - 4 && read_be32(nodes, at) == 4
        invariant
            at <= nodes@.len() + 4,
            nodes@.len() <= FDT_MAX_LEN,
            skip_padding(nodes@, start as int) == skip_padding(nodes@, at as int),
        decreases nodes@.len() + 4 - at,
    {
        at = at + 4;
    }
    at
}

/// Reads through a device tree as far as `goal` takes; where nothing is wrong,
/// tells whether it has a node of processors.
pub fn survey_tree(tree: &[u8], goal: Goal) -> (found: Option<bool>)
    ensures
        found == surveyed(tree@, goal),
{
    proof {
        reveal(surveyed);
    }
    if tree.len() < 40 || tree.len() > FDT_MAX_LEN {
        return None;
    }
    assert(tree@.len() == tree.len());
    let length: u64 = tree.len() as u64;
    let total: u64 = read_be32(tree, 4) as u64;
    let nodes_at: u64 = read_be32(tree, 8) as u64;
    let names_at: u64 = read_be32(tree, 12) as u64;
    let names_size: u64 = read_be32(tree, 32) as u64;
    let nodes_size: u64 = read_be32(tree, 36) as u64;
    if read_be32(tree, 0) != FDT_MAGIC || total > length || nodes_at + nodes_size > length
        || names_at + names_size > length {
        return None;
    }
    let nodes = copy_range(tree, nodes_at as usize, (nodes_at + nodes_size) as usize);
    assert(nodes@ =~= nodes_of(tree@));
    let names = copy_range(tree, names_at as usize, (names_at + names_size) as usize);
    assert(names@ =~= names_of(tree@));
    let at: usize = past_padding(&nodes, 0);
    if nodes.len() < 4 || at > nodes.len() - 4 || read_be32(&nodes, at) != 1 {
        return Some(false);
    }
    match check_text(&nodes, at + 4) {
        Some(end) => {
            if end != at + 4 && nodes[at + 4] != 0x40 {
                return None;
            }
            let size: usize = (end - (at + 4) + 1 + 3) / 4 * 4;
            assert(size == words(end - (at + 4) + 1));
            let next: usize = past_padding(&nodes, at + 4 + size);
            scan_nodes(&nodes, &names, next, goal)
        },
        None => None,
    }
}

/// The number in the bytes of a frequency property.
pub open spec fn frequency_of(value: Option<Seq<u8>>) -> Option<u64> {
    match value {
        Some(bytes) => if bytes.len() == 4 {
            Some(be32(bytes, 0) as u64)
        } else if bytes.len() == 8 {
            Some((0x1_0000_0000 * be32(bytes, 0) + be32(bytes, 4)) as u64)
        } else {
            None
        },
        None => None,
    }
}

/// Decodes the bytes of a frequency property.
pub fn decode_frequency(value: Option<Vec<u8>>) -> (frequency: Option<u64>)
    ensures
        frequency == frequency_of(viewed(value)),
{
    match value {
        Some(bytes) => if bytes.len() == 4 {
            Some(read_be32(&bytes, 0) as u64)
        } else if bytes.len() == 8 {
            let high: u64 = read_be32(&bytes, 0) as u64;
            let low: u64 = read_be32(&bytes, 4) as u64;
            Some(0x1_0000_0000 * high + low)
        } else {
            None
        },
        None => None,
    }
}

/// The frequency of the platform counter, as a device tree tells it that can
/// be read.
pub fn timebase_frequency(tree: Option<&[u8]>) -> (frequency: Option<u64>)
    ensures
        frequency == match tree {
            Some(bytes) => if surveyed(bytes@, Goal::Frequency) == Some(true) {
                frequency_of(timebase_property(bytes@))
            } else {
                None
            },
            None => None,
        },
{
    match tree {
        Some(bytes) => {
            let found = survey_tree(bytes, Goal::Frequency);
            if found.is_none() {
                return None;
            }
            assert(found == Some(true) || found == Some(false));
            let value = read_timebase(bytes);
            decode_frequency(value)
        },
        None => None,
    }
}

/// The name of the timer extension.
pub open spec fn sstc() -> Seq<u8> {
    seq![0x73u8, 0x73, 0x74, 0x63]
}

/// Whether a list of names from place `at` on has the timer extension, where
/// `current` is the name read so far.
pub open spec fn lists_sstc(list: Seq<u8>, separator: u8, at: int, current: Seq<u8>) -> bool
    decreases list.len() - at,
{
    if at >= list.len() {
        current == sstc()
    } else if list[at] == separator {
        current == sstc() || lists_sstc(list, separator, at + 1, Seq::empty())
    } else {
        lists_sstc(list, separator, at + 1, current.push(list[at]))
    }
}

/// A text without zeros at its end.
pub open spec fn without_zeros(text: Seq<u8>) -> Seq<u8>
    decreases text.len(),
{
    if text.len() > 0 && text.last() == 0 {
        without_zeros(text.drop_last())
    } else {
        text
    }
}

/// Whether a processor has the timer extension.
///
/// A list of extensions decides where there is one; otherwise the older
/// description does.
pub open spec fn has_sstc(extensions: Option<Seq<u8>>, isa: Option<Seq<u8>>) -> bool {
    match extensions {
        Some(list) => valid_utf8(list) && lists_sstc(list, 0, 0, Seq::empty()),
        None => match isa {
            Some(text) => valid_utf8(text) && lists_sstc(
                without_zeros(text),
                0x5f,
                0,
                Seq::empty(),
            ),
            None => false,
        },
    }
}

fn search_list(list: &[u8], separator: u8) -> (found: bool)
    ensures
        found == lists_sstc(list@, separator, 0, Seq::empty()),
{
    let wanted: Vec<u8> = vec![0x73u8, 0x73, 0x74, 0x63];
    assert(wanted@ =~= sstc());
    let mut current: Vec<u8> = Vec::new();
    let mut at: usize = 0;
    while at < list.len()
        invariant
            at <= list@.len(),
            wanted@ == sstc(),
            lists_sstc(list@, separator, 0, Seq::empty()) == lists_sstc(
                list@,
                separator,
                at as int,
                current@,
            ),
        decreases list@.len() - at,
    {
        if list[at] == separator {
            if same_bytes(&current, &wanted) {
                return true;
            }
            current = Vec::new();
        } else {
            current.push(list[at]);
        }
        at = at + 1;
    }
    same_bytes(&current, &wanted)
}

/// Tells whether a processor has the timer extension.
pub fn cpu_supports_sstc(extensions: &Option<Vec<u8>>, isa: &Option<Vec<u8>>) -> (supported: bool)
    ensures
        supported == has_sstc(viewed(*extensions), viewed(*isa)),
{
    match extensions {
        Some(list) => is_utf8(list) && search_list(list, 0),
        None => match isa {
            Some(text) => {
                if !is_utf8(text) {
                    return false;
                }
                let mut end: usize = text.len();
                assert(text@.take(end as int) =~= text@);
                while end > 0 && text[end - 1] == 0
                    invariant
                        end <= text@.len(),
                        without_zeros(text@) == without_zeros(text@.take(end as int)),
                    decreases end,
                {
                    assert(text@.take(end as int).drop_last() =~= text@.take(end - 1));
                    end = end - 1;
                }
                let short = copy_range(text, 0, end);
                assert(short@ =~= text@.take(end as int));
                search_list(&short, 0x5f)
            },
            None => false,
        },
    }
}

/// Whether the processors of a device tree from the one behind `others` others on
/// all have the timer extension, if they can be read up to the first that has
/// not; there must be a processor.
pub open spec fn all_have_sstc(tree: Seq<u8>, others: nat) -> Option<bool>
    decreases tree.len() - others,
{
    if surveyed(tree, Goal::Processor(others as usize)) != Some(true) {
        None
    } else {
        match isa_properties(tree, others) {
            None => Some(others > 0),
            Some(cpu) => if !has_sstc(cpu.0, cpu.1) {
                Some(false)
            } else if others < tree.len() {
                all_have_sstc(tree, others + 1)
            } else {
                Some(true)
            },
        }
    }
}

/// Tells whether all processors have the timer extension, once that is known:
/// this one has it not, or there is none behind `others` others that have it.
pub fn all_support_sstc(cpu: &Option<(Option<Vec<u8>>, Option<Vec<u8>>)>, others: usize) -> (known:
    Option<bool>)
    ensures
        known == match *cpu {
            None => Some(others > 0),
            Some(found) => if has_sstc(viewed(found.0), viewed(found.1)) {
                None
            } else {
                Some(false)
            },
        },
{
    match cpu {
        None => Some(others > 0),
        Some(found) => if cpu_supports_sstc(&found.0, &found.1) {
            None
        } else {
            Some(false)
        },
    }
}

/// Whether every processor of a device tree has the timer extension, if the
/// tree can be read; it must have a node of processors then.
pub fn all_cpus_support_sstc(tree: Option<&[u8]>) -> (supported: Option<bool>)
    requires
        tree matches Some(bytes) ==> surveyed(bytes@, Goal::Processor(0)) != Some(false),
    ensures
        supported == match tree {
            Some(bytes) => all_have_sstc(bytes@, 0),
            None => None,
        },
{
    let bytes: &[u8] = match tree {
        Some(bytes) => bytes,
        None => {
            return None;
        },
    };
    let length: usize = bytes.len();
    let mut others: usize = 0;
    loop
        invariant
            tree == Some(bytes),
            length == bytes@.len(),
            others <= length,
            all_have_sstc(bytes@, 0) == all_have_sstc(bytes@, others as nat),
        decreases length - others,
    {
        match survey_tree(bytes, Goal::Processor(others)) {
            Some(true) => {},
            _ => {
                return None;
            },
        }
        let cpu = read_isa(bytes, others);
        if let Some(known) = all_support_sstc(&cpu, others) {
            return Some(known);
        }
        others = others + 1;
    }
}

/// A device tree that was found is as long as it says, and within limits.
pub proof fn law_found_tree_is_whole(modules: Seq<Module>)
    requires
        tree_module(modules).is_some(),
    ensures
        ({
            let tree = tree_module(modules)->Some_0;
            &&& FDT_HEADER_LEN <= tree.len() <= FDT_MAX_LEN
            &&& be32(tree, 0) == FDT_MAGIC
            &&& be32(tree, 4) == tree.len()
        }),
{
    let files = first_where(modules, holds_tree(true), 0);
    let others = first_where(modules, holds_tree(false), 0);
    lemma_first_where(modules, holds_tree(true), 0);
    lemma_first_where(modules, holds_tree(false), 0);
}

/// A number of a device tree has its highest byte first.
pub proof fn law_tree_numbers_are_big_endian(bytes: Seq<u8>, at: int)
    ensures
        be32(bytes, at) == ((bytes[at] * 0x100 + bytes[at + 1]) * 0x100 + bytes[at + 2]) * 0x100
            + bytes[at + 3],
{
}

/// A root pointer is taken only with its signature and a sum of zero over its
/// first part and, in its later form, over all of it.
pub proof fn law_root_pointer_is_checked(bytes: Seq<u8>)
    requires
        bytes.len() >= 24,
    ensures
        rsdp_size(bytes) matches Some(size) ==> {
            &&& bytes[0] == 0x52 && bytes[1] == 0x53 && bytes[2] == 0x44 && bytes[3] == 0x20
            &&& bytes[4] == 0x50 && bytes[5] == 0x54 && bytes[6] == 0x52 && bytes[7] == 0x20
            &&& byte_sum(bytes.take(20)) == 0
            &&& bytes[15] < 2 ==> size == 20
            &&& bytes[15] >= 2 ==> size == u32_at(bytes, 20) && byte_sum(bytes.take(size)) == 0
                && size >= 36
        },
{
    let mark = bytes.take(8);
    assert(mark[0] == bytes[0] && mark[1] == bytes[1] && mark[2] == bytes[2] && mark[3] == bytes[3]
        && mark[4] == bytes[4] && mark[5] == bytes[5] && mark[6] == bytes[6] && mark[7]
        == bytes[7]);
}

/// The sum of bytes is taken modulo 256, so each byte counts.
pub proof fn law_sum_counts_every_byte(bytes: Seq<u8>, byte: u8)
    ensures
        byte_sum(Seq::empty()) == 0,
        byte_sum(bytes.push(byte)) == (byte_sum(bytes) + byte) % 256,
        0 <= byte_sum(bytes) < 256,
    decreases bytes.len(),
{
    assert(bytes.push(byte).drop_last() =~= bytes);
    if bytes.len() > 0 {
        law_sum_counts_every_byte(bytes.drop_last(), bytes.last());
    }
}

/// A node is named by its name alone or with an address behind it.
pub proof fn law_node_name_may_have_address(name: Seq<u8>, more: Seq<u8>)
    ensures
        names_node(name, name),
        more.len() > 0 ==> (names_node(name + more, name) <==> more[0] == 0x40),
{
    assert(name.take(name.len() as int) =~= name);
    assert((name + more).take(name.len() as int) =~= name);
}

} // verus!
