//! The packed record of one node: kind and parent share a word, and so do value
//! and first child.

use vstd::prelude::*;

verus! {

/// Sentinel for "no node" and "no string" in the arenas.
pub const NO_NODE: u32 = 0xffff_ffff;

/// Marks a virtual node index: the text child of a collapsed element, whose index
/// stands in the low 31 bits.
pub const VIRTUAL_TEXT: u32 = 0x8000_0000;

/// Bit width of the parent field; the three bits above it hold the kind.
pub const PARENT_BITS: u32 = 29;

/// The parent field's mask. Node indices stay below it.
pub const PARENT_MASK: u32 = 0x1fff_ffff;

/// "No parent" within the parent field.
pub const PARENT_NONE: u32 = 0x1fff_ffff;

/// Marks the shared slot as holding a first-child index.
pub const CHILD_FLAG: u32 = 0x8000_0000;

/// References of values are below this.
pub const VALUE_REF_LIMIT: u32 = 0x8000_0000;

/// The kinds of node a document holds.
#[derive(Clone, Copy, PartialEq, Eq, Debug, Structural)]
pub enum E4XNodeKindReadOnly {
    Element,
    Text,
    Cdata,
    Comment,
    ProcessingInstruction,
    Attribute,
}

/// The number of a kind in its three-bit field.
pub open spec fn kind_bits(kind: E4XNodeKindReadOnly) -> u32 {
    match kind {
        E4XNodeKindReadOnly::Element => 0,
        E4XNodeKindReadOnly::Text => 1,
        E4XNodeKindReadOnly::Cdata => 2,
        E4XNodeKindReadOnly::Comment => 3,
        E4XNodeKindReadOnly::ProcessingInstruction => 4,
        E4XNodeKindReadOnly::Attribute => 5,
    }
}

/// The kind that a three-bit number stands for.
pub open spec fn kind_of_bits(bits: u32) -> E4XNodeKindReadOnly {
    if bits == 0 {
        E4XNodeKindReadOnly::Element
    } else if bits == 1 {
        E4XNodeKindReadOnly::Text
    } else if bits == 2 {
        E4XNodeKindReadOnly::Cdata
    } else if bits == 3 {
        E4XNodeKindReadOnly::Comment
    } else if bits == 4 {
        E4XNodeKindReadOnly::ProcessingInstruction
    } else {
        E4XNodeKindReadOnly::Attribute
    }
}

fn kind_to_bits(kind: E4XNodeKindReadOnly) -> (r: u32)
    ensures
        r == kind_bits(kind),
{
    match kind {
        E4XNodeKindReadOnly::Element => 0,
        E4XNodeKindReadOnly::Text => 1,
        E4XNodeKindReadOnly::Cdata => 2,
        E4XNodeKindReadOnly::Comment => 3,
        E4XNodeKindReadOnly::ProcessingInstruction => 4,
        E4XNodeKindReadOnly::Attribute => 5,
    }
}

/// The kind half of a packed word.
pub open spec fn word_kind(word: u32) -> E4XNodeKindReadOnly {
    kind_of_bits(word >> 29u32)
}

/// The parent half of a packed word, `NO_NODE` for none.
pub open spec fn word_parent(word: u32) -> u32 {
    if word & PARENT_MASK == PARENT_NONE {
        NO_NODE
    } else {
        word & PARENT_MASK
    }
}

/// A parent index that the parent field can hold.
pub open spec fn parent_fits(parent: u32) -> bool {
    parent == NO_NODE || parent < PARENT_MASK
}

/// Packs a kind and a parent index into one word. Reading the word back gives
/// both.
fn pack_kind_parent(kind: E4XNodeKindReadOnly, parent: u32) -> (r: u32)
    requires
        parent_fits(parent),
    ensures
        word_kind(r) == kind,
        word_parent(r) == parent,
{
    let p: u32 = if parent == NO_NODE {
        PARENT_NONE
    } else {
        parent
    };
    let k: u32 = kind_to_bits(kind);
    let w: u32 = (k << PARENT_BITS) | p;
    assert(w >> 29u32 == k && w & 0x1fff_ffffu32 == p) by (bit_vector)
        requires
            w == (k << 29u32) | p,
            k < 6u32,
            p <= 0x1fff_ffffu32,
    ;
    w
}

/// What one node record says: links are node indices and string fields are string
/// references; `NO_NODE` stands for none in all of them.
pub struct NodeRecord {
    pub kind: E4XNodeKindReadOnly,
    pub parent: u32,
    pub name: u32,
    pub value: u32,
    pub child: u32,
    pub ns: u32,
    pub prefix: u32,
    pub next_sibling: u32,
    pub first_attr: u32,
}

/// One node record, packed into seven words without heap pointers.
#[derive(Clone, Copy)]
pub struct E4XNodeDataReadOnly {
    /// High three bits: kind. Low 29 bits: parent index or `PARENT_NONE`.
    kind_parent: u32,
    name: u32,
    /// `NO_NODE`: neither; `CHILD_FLAG` set: first child's index in the low bits;
    /// otherwise: the value's string reference.
    value_or_child: u32,
    ns: u32,
    prefix: u32,
    next_sibling: u32,
    first_attr: u32,
}

impl View for E4XNodeDataReadOnly {
    type V = NodeRecord;

    closed spec fn view(&self) -> NodeRecord {
        NodeRecord {
            kind: word_kind(self.kind_parent),
            parent: word_parent(self.kind_parent),
            name: self.name,
            value: slot_value(self.value_or_child),
            child: slot_child(self.value_or_child),
            ns: self.ns,
            prefix: self.prefix,
            next_sibling: self.next_sibling,
            first_attr: self.first_attr,
        }
    }
}

/// The value reference that the shared slot holds.
pub open spec fn slot_value(slot: u32) -> u32 {
    if slot == NO_NODE || slot & CHILD_FLAG != 0 {
        NO_NODE
    } else {
        slot
    }
}

/// The first-child index that the shared slot holds.
pub open spec fn slot_child(slot: u32) -> u32 {
    if slot != NO_NODE && slot & CHILD_FLAG != 0 {
        slot & !CHILD_FLAG
    } else {
        NO_NODE
    }
}

impl E4XNodeDataReadOnly {
    /// A record without links, holding `value` in the shared slot.
    pub fn new(
        kind: E4XNodeKindReadOnly,
        name: u32,
        value: u32,
        ns: u32,
        prefix: u32,
        parent: u32,
    ) -> (r: Self)
        requires
            parent_fits(parent),
            value == NO_NODE || value < CHILD_FLAG,
        ensures
            r@ == (NodeRecord {
                kind,
                parent,
                name,
                value,
                child: NO_NODE,
                ns,
                prefix,
                next_sibling: NO_NODE,
                first_attr: NO_NODE,
            }),
    {
        proof {
            lemma_value_slot(value);
        }
        E4XNodeDataReadOnly {
            kind_parent: pack_kind_parent(kind, parent),
            name,
            value_or_child: value,
            ns,
            prefix,
            next_sibling: NO_NODE,
            first_attr: NO_NODE,
        }
    }

    /// The kind of node.
    pub fn kind(self) -> (r: E4XNodeKindReadOnly)
        ensures
            r == self@.kind,
    {
        let bits: u32 = self.kind_parent >> PARENT_BITS;
        if bits == 0 {
            E4XNodeKindReadOnly::Element
        } else if bits == 1 {
            E4XNodeKindReadOnly::Text
        } else if bits == 2 {
            E4XNodeKindReadOnly::Cdata
        } else if bits == 3 {
            E4XNodeKindReadOnly::Comment
        } else if bits == 4 {
            E4XNodeKindReadOnly::ProcessingInstruction
        } else {
            E4XNodeKindReadOnly::Attribute
        }
    }

    /// Parent node index, or `NO_NODE` for a root.
    pub fn parent_idx(self) -> (r: u32)
        ensures
            r == self@.parent,
    {
        let p: u32 = self.kind_parent & PARENT_MASK;
        if p == PARENT_NONE {
            NO_NODE
        } else {
            p
        }
    }

    /// Value string reference, or `NO_NODE` if the slot holds a child or is empty.
    pub fn value_ref(self) -> (r: u32)
        ensures
            r == self@.value,
    {
        if self.value_or_child == NO_NODE || self.value_or_child & CHILD_FLAG != 0 {
            NO_NODE
        } else {
            self.value_or_child
        }
    }

    /// First-child index, or `NO_NODE` if the slot holds a value or is empty.
    pub fn first_child_idx(self) -> (r: u32)
        ensures
            r == self@.child,
    {
        if self.value_or_child != NO_NODE && self.value_or_child & CHILD_FLAG != 0 {
            self.value_or_child & !CHILD_FLAG
        } else {
            NO_NODE
        }
    }

    /// String reference of the local name (the target of a processing instruction).
    pub fn name(self) -> (r: u32)
        ensures
            r == self@.name,
    {
        self.name
    }

    /// String reference of the namespace URI.
    pub fn ns(self) -> (r: u32)
        ensures
            r == self@.ns,
    {
        self.ns
    }

    /// String reference of the namespace prefix.
    pub fn prefix(self) -> (r: u32)
        ensures
            r == self@.prefix,
    {
        self.prefix
    }

    /// Index of the next sibling, or of the next attribute of the same element.
    pub fn next_sibling(self) -> (r: u32)
        ensures
            r == self@.next_sibling,
    {
        self.next_sibling
    }

    /// Index of the first attribute.
    pub fn first_attr(self) -> (r: u32)
        ensures
            r == self@.first_attr,
    {
        self.first_attr
    }

    /// Stores a value reference into the shared slot, replacing any child link.
    pub fn set_value(&mut self, value: u32)
        requires
            value == NO_NODE || value < CHILD_FLAG,
        ensures
            final(self)@ == (NodeRecord { value, child: NO_NODE, ..old(self)@ }),
    {
        proof {
            lemma_value_slot(value);
        }
        self.value_or_child = value;
    }

    /// Stores a first-child index into the shared slot, replacing any value.
    pub fn set_first_child(&mut self, idx: u32)
        requires
            idx == NO_NODE || idx < CHILD_FLAG - 1,
        ensures
            final(self)@ == (NodeRecord { value: NO_NODE, child: idx, ..old(self)@ }),
    {
        let slot: u32 = if idx == NO_NODE {
            NO_NODE
        } else {
            CHILD_FLAG | idx
        };
        assert(idx < 0x7fff_ffffu32 ==> (0x8000_0000u32 | idx) & 0x8000_0000u32 != 0 && (
        0x8000_0000u32 | idx) & !0x8000_0000u32 == idx && (0x8000_0000u32 | idx) != 0xffff_ffffu32)
            by (bit_vector);
        self.value_or_child = slot;
    }

    /// Links the next sibling.
    pub fn set_next_sibling(&mut self, idx: u32)
        ensures
            final(self)@ == (NodeRecord { next_sibling: idx, ..old(self)@ }),
    {
        self.next_sibling = idx;
    }

    /// Links the first attribute.
    pub fn set_first_attr(&mut self, idx: u32)
        ensures
            final(self)@ == (NodeRecord { first_attr: idx, ..old(self)@ }),
    {
        self.first_attr = idx;
    }
}

proof fn lemma_value_slot(value: u32)
    requires
        value == NO_NODE || value < CHILD_FLAG,
    ensures
        value == NO_NODE || value & CHILD_FLAG == 0,
{
    assert(value < 0x8000_0000u32 ==> value & 0x8000_0000u32 == 0) by (bit_vector);
}

/// Every kind survives being packed into its three-bit field.
pub proof fn lemma_kind_round_trip(kind: E4XNodeKindReadOnly)
    ensures
        kind_of_bits(kind_bits(kind)) == kind,
        kind_bits(kind) < 8,
{
}

} // verus!
