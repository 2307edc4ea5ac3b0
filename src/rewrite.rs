use vstd::prelude::*;
use crate::address::TypeAddress;
use crate::ids::StableIdView;
use crate::text::joined;

verus! {

/// The module name under which resource memories are imported.
pub const RESOURCE_MODULE: &'static str = "bevy";

/// The immediate of a load or store: its static offset and the index of the
/// memory it reads or writes.
#[derive(Clone, Copy, Debug, PartialEq, Eq, Structural)]
pub struct MemArg {
    pub offset: u32,
    pub memory: u32,
}

/// What the rewriter sees of an instruction: a 32-bit constant, a load or
/// store of any width or kind, or anything else.
#[derive(Clone, Copy, Debug, PartialEq, Eq, Structural)]
pub enum WasmInstr {
    I32Const(i32),
    Access(MemArg),
    Other,
}

/// A memory import that gives one resource type its own linear memory.
#[derive(Clone, Debug)]
pub struct MemoryImport {
    pub module: String,
    pub name: String,
    /// Base-two logarithm of the page size: 0 for pages of one byte.
    pub page_size_log2: u32,
    pub min: u64,
    pub max: Option<u64>,
}

/// The address an access probably touches: its offset plus the constant
/// pushed just before it, modulo 2^32, or the offset alone.
pub open spec fn probable_address(carry: Option<u32>, offset: u32) -> int {
    match carry {
        Some(c) => (offset as int + c as int) % 0x1_0000_0000,
        None => offset as int,
    }
}

/// A 32-bit constant read as an unsigned address: its value modulo 2^32.
pub open spec fn const_address(v: i32) -> u32 {
    if v >= 0 {
        v as u32
    } else {
        (v as int + 0x1_0000_0000) as u32
    }
}

/// The constant that the instruction before position `k` pushes, if it is an
/// `i32.const`, read as an unsigned 32-bit address.
pub open spec fn carry_before(body: Seq<WasmInstr>, k: int) -> Option<u32> {
    if k > 0 && body[k - 1] is I32Const {
        Some(const_address(body[k - 1]->I32Const_0))
    } else {
        None
    }
}

/// Whether the range holds the address.
pub open spec fn range_contains(r: (u32, u32), a: int) -> bool {
    r.0 <= a < r.1
}

/// The position of the first range that holds the address, if any.
pub open spec fn first_containing(ranges: Seq<(u32, u32)>, a: int) -> Option<int>
    decreases ranges.len(),
{
    if ranges.len() == 0 {
        None
    } else {
        match first_containing(ranges.drop_last(), a) {
            Some(i) => Some(i),
            None => if range_contains(ranges.last(), a) {
                Some(ranges.len() - 1)
            } else {
                None
            },
        }
    }
}

/// The memory index an access gets: one more than the position of the first
/// range holding its probable address, or its own index where no range does.
pub open spec fn retargeted_memory(ranges: Seq<(u32, u32)>, carry: Option<u32>, m: MemArg) -> int {
    match first_containing(ranges, probable_address(carry, m.offset)) {
        Some(i) => i + 1,
        None => m.memory as int,
    }
}

/// The instruction at position `k` of a body after retargeting.
pub open spec fn retargeted(ranges: Seq<(u32, u32)>, body: Seq<WasmInstr>, k: int) -> WasmInstr {
    match body[k] {
        WasmInstr::Access(m) => WasmInstr::Access(
            MemArg { offset: m.offset, memory: retargeted_memory(ranges, carry_before(body, k), m) as u32 },
        ),
        other => other,
    }
}

/// The ranges of a list of type addresses, as (low, high) pairs.
pub open spec fn ranges_of(addresses: Seq<TypeAddress>) -> Seq<(u32, u32)> {
    addresses.map_values(|t: TypeAddress| (t.address.start, t.address.end))
}

proof fn lemma_first_containing_bounds(ranges: Seq<(u32, u32)>, a: int)
    ensures
        first_containing(ranges, a) is Some ==> 0 <= first_containing(ranges, a)->0 < ranges.len()
            && range_contains(ranges[first_containing(ranges, a)->0], a),
        first_containing(ranges, a) is Some ==> forall|j: int|
            0 <= j < first_containing(ranges, a)->0 ==> !range_contains(#[trigger] ranges[j], a),
        first_containing(ranges, a) is None ==> forall|j: int|
            0 <= j < ranges.len() ==> !range_contains(#[trigger] ranges[j], a),
    decreases ranges.len(),
{
    if ranges.len() > 0 {
        lemma_first_containing_bounds(ranges.drop_last(), a);
        assert forall|j: int| 0 <= j < ranges.len() - 1 implies ranges[j] == ranges.drop_last()[j] by {}
    }
}

/// One step of the rewriter: the memory index that a load or store must use.
pub struct Retargeter {
    pub ranges: Vec<(u32, u32)>,
    /// The constant pushed by the instruction just visited, if it was an `i32.const`.
    pub carry: Option<u32>,
}

impl Retargeter {
    pub fn new(addresses: &Vec<TypeAddress>) -> (r: Retargeter)
        ensures
            r.ranges@ == ranges_of(addresses@),
            r.carry is None,
    {
        let mut ranges: Vec<(u32, u32)> = Vec::new();
        let mut i: usize = 0;
        while i < addresses.len()
            invariant
                0 <= i <= addresses@.len(),
                ranges@ == ranges_of(addresses@).subrange(0, i as int),
            decreases addresses@.len() - i,
        {
            ranges.push((addresses[i].address.start, addresses[i].address.end));
            i += 1;
            assert(ranges@ =~= ranges_of(addresses@).subrange(0, i as int));
        }
        assert(ranges_of(addresses@).subrange(0, i as int) =~= ranges_of(addresses@));
        Retargeter { ranges, carry: None }
    }

    fn find(&self, a: u32) -> (r: Option<usize>)
        ensures
            r is Some <==> first_containing(self.ranges@, a as int) is Some,
            r is Some ==> r->0 as int == first_containing(self.ranges@, a as int)->0,
    {
        proof {
            lemma_first_containing_bounds(self.ranges@, a as int);
        }
        let mut i: usize = 0;
        while i < self.ranges.len()
            invariant
                0 <= i <= self.ranges@.len(),
                forall|j: int| 0 <= j < i ==> !range_contains(#[trigger] self.ranges@[j], a as int),
                first_containing(self.ranges@, a as int) is Some ==> i <= first_containing(
                    self.ranges@,
                    a as int,
                )->0,
            decreases self.ranges@.len() - i,
        {
            let (lo, hi) = self.ranges[i];
            proof {
                lemma_first_containing_bounds(self.ranges@, a as int);
            }
            if lo <= a && a < hi {
                proof {
                    lemma_first_containing_bounds(self.ranges@, a as int);
                    if first_containing(self.ranges@, a as int) is Some {
                        let f = first_containing(self.ranges@, a as int)->0;
                        if f > i {
                            assert(!range_contains(self.ranges@[i as int], a as int));
                        }
                    }
                }
                return Some(i);
            }
            i += 1;
        }
        None
    }

    /// Visits one instruction in order. A constant is kept for the next
    /// instruction; a load or store gets the memory index it must use, or
    /// keeps its own where no range holds its probable address.
    pub fn visit(&mut self, instr: WasmInstr) -> (r: WasmInstr)
        requires
            old(self).ranges@.len() < u32::MAX,
        ensures
            final(self).ranges == old(self).ranges,
            final(self).carry == (match instr {
                WasmInstr::I32Const(v) => Some(const_address(v)),
                _ => None,
            }),
            r == (match instr {
                WasmInstr::Access(m) => WasmInstr::Access(
                    MemArg {
                        offset: m.offset,
                        memory: retargeted_memory(old(self).ranges@, old(self).carry, m) as u32,
                    },
                ),
                other => other,
            }),
    {
        match instr {
            WasmInstr::I32Const(v) => {
                let a: u32 = if v >= 0 {
                    v as u32
                } else {
                    (v as i64 + 0x1_0000_0000i64) as u32
                };
                self.carry = Some(a);
                instr
            },
            WasmInstr::Access(m) => {
                let a: u32 = match self.carry {
                    Some(c) => ((m.offset as u64 + c as u64) % 0x1_0000_0000u64) as u32,
                    None => m.offset,
                };
                self.carry = None;
                match self.find(a) {
                    Some(i) => {
                        proof {
                            lemma_first_containing_bounds(self.ranges@, a as int);
                        }
                        assert(i < self.ranges@.len());
                        WasmInstr::Access(MemArg { offset: m.offset, memory: (i + 1) as u32 })
                    },
                    None => instr,
                }
            },
            WasmInstr::Other => {
                self.carry = None;
                instr
            },
        }
    }
}

/// Retargets every load and store of a function body to the memory of the
/// first type range that holds its probable address; other instructions are
/// kept as they are.
pub fn retarget_body(addresses: &Vec<TypeAddress>, body: &Vec<WasmInstr>) -> (r: Vec<WasmInstr>)
    requires
        addresses@.len() < u32::MAX,
    ensures
        r@.len() == body@.len(),
        forall|k: int| 0 <= k < body@.len() ==> r@[k] == retargeted(ranges_of(addresses@), body@, k),
{
    let mut t = Retargeter::new(addresses);
    let mut out: Vec<WasmInstr> = Vec::new();
    let mut k: usize = 0;
    while k < body.len()
        invariant
            0 <= k <= body@.len(),
            t.ranges@ == ranges_of(addresses@),
            addresses@.len() < u32::MAX,
            t.carry == carry_before(body@, k as int),
            out@.len() == k,
            forall|j: int| 0 <= j < k ==> out@[j] == retargeted(ranges_of(addresses@), body@, j),
        decreases body@.len() - k,
    {
        let instr = body[k];
        let next = t.visit(instr);
        out.push(next);
        k += 1;
    }
    out
}

/// The name under which a type's memory is imported: `<crate>::<type>`.
pub open spec fn import_name(id: StableIdView) -> Seq<char> {
    id.crate_name + "::"@ + id.name
}

/// The memory imports to append, one per type address and in the same order,
/// so that the `i`-th type gets memory index `i + 1`.
pub fn resource_imports(addresses: &Vec<TypeAddress>) -> (r: Vec<MemoryImport>)
    ensures
        r@.len() == addresses@.len(),
        forall|i: int|
            0 <= i < r@.len() ==> {
                &&& (#[trigger] r@[i]).module@ == RESOURCE_MODULE@
                &&& r@[i].name@ == import_name(addresses@[i].signature.spec_id()@)
                &&& r@[i].page_size_log2 == 0
                &&& r@[i].min == 0
                &&& r@[i].max is None
            },
{
    let mut out: Vec<MemoryImport> = Vec::new();
    let mut i: usize = 0;
    while i < addresses.len()
        invariant
            0 <= i <= addresses@.len(),
            out@.len() == i,
            forall|j: int|
                0 <= j < i ==> {
                    &&& (#[trigger] out@[j]).module@ == RESOURCE_MODULE@
                    &&& out@[j].name@ == import_name(addresses@[j].signature.spec_id()@)
                    &&& out@[j].page_size_log2 == 0
                    &&& out@[j].min == 0
                    &&& out@[j].max is None
                },
        decreases addresses@.len() - i,
    {
        let id = addresses[i].signature.stable_id();
        let name = joined(id.crate_name.as_str(), "::", id.name.as_str());
        out.push(
            MemoryImport {
                module: RESOURCE_MODULE.to_owned(),
                name,
                page_size_log2: 0,
                min: 0,
                max: None,
            },
        );
        i += 1;
    }
    out
}

} // verus!
