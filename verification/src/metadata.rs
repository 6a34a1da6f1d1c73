use vstd::prelude::*;

verus! {

/// The metadata of a node of a control-flow graph: a symbolic state, a
/// basic block, or a run of basic blocks compressed into one node.
/// Addresses and generations of zero are not recorded (`None`).
#[derive(Debug, PartialEq, Eq)]
pub enum NodeMetadata {
    State { amba_state_id: u32 },
    BasicBlock {
        symbolic_state_id: u32,
        basic_block_vaddr: Option<u64>,
        basic_block_generation: Option<u64>,
        basic_block_elf_vaddr: Option<u64>,
        basic_block_content: Vec<u8>,
    },
    CompressedBasicBlock(Box<CompressedBasicBlock>),
}

/// The basic blocks of a compressed node, field by field, in execution
/// order.
#[derive(Debug, PartialEq, Eq)]
pub struct CompressedBasicBlock {
    pub symbolic_state_ids: Vec<u32>,
    pub basic_block_vaddrs: Vec<Option<u64>>,
    pub basic_block_generations: Vec<Option<u64>>,
    pub basic_block_elf_vaddrs: Vec<Option<u64>>,
    pub basic_block_contents: Vec<Vec<u8>>,
}

/// The mathematical value of a `NodeMetadata`.
pub enum MetadataView {
    State { amba_state_id: u32 },
    BasicBlock {
        symbolic_state_id: u32,
        basic_block_vaddr: Option<u64>,
        basic_block_generation: Option<u64>,
        basic_block_elf_vaddr: Option<u64>,
        basic_block_content: Seq<u8>,
    },
    CompressedBasicBlock {
        symbolic_state_ids: Seq<u32>,
        basic_block_vaddrs: Seq<Option<u64>>,
        basic_block_generations: Seq<Option<u64>>,
        basic_block_elf_vaddrs: Seq<Option<u64>>,
        basic_block_contents: Seq<Seq<u8>>,
    },
}

/// The byte strings of a list of them.
pub open spec fn contents_view(v: Seq<Vec<u8>>) -> Seq<Seq<u8>> {
    v.map_values(|c: Vec<u8>| c@)
}

impl View for NodeMetadata {
    type V = MetadataView;

    open spec fn view(&self) -> MetadataView {
        match self {
            NodeMetadata::State { amba_state_id } => MetadataView::State { amba_state_id: *amba_state_id },
            NodeMetadata::BasicBlock {
                symbolic_state_id,
                basic_block_vaddr,
                basic_block_generation,
                basic_block_elf_vaddr,
                basic_block_content,
            } => MetadataView::BasicBlock {
                symbolic_state_id: *symbolic_state_id,
                basic_block_vaddr: *basic_block_vaddr,
                basic_block_generation: *basic_block_generation,
                basic_block_elf_vaddr: *basic_block_elf_vaddr,
                basic_block_content: basic_block_content@,
            },
            NodeMetadata::CompressedBasicBlock(b) => MetadataView::CompressedBasicBlock {
                symbolic_state_ids: b.symbolic_state_ids@,
                basic_block_vaddrs: b.basic_block_vaddrs@,
                basic_block_generations: b.basic_block_generations@,
                basic_block_elf_vaddrs: b.basic_block_elf_vaddrs@,
                basic_block_contents: contents_view(b.basic_block_contents@),
            },
        }
    }
}

/// The bucket that the index of a control-flow graph files a metadata
/// under: the state id, the block address (its state id when it has none),
/// or the first state id of a compressed block.
pub open spec fn digest(m: MetadataView) -> u64 {
    match m {
        MetadataView::State { amba_state_id } => amba_state_id as u64,
        MetadataView::BasicBlock { symbolic_state_id, basic_block_vaddr, .. } => match basic_block_vaddr {
            Some(v) => v,
            None => symbolic_state_id as u64,
        },
        MetadataView::CompressedBasicBlock { symbolic_state_ids, .. } => if symbolic_state_ids.len() > 0 {
            symbolic_state_ids[0] as u64
        } else {
            0
        },
    }
}

/// The bucket of `m`, as `digest` gives it.
pub fn metadata_digest(m: &NodeMetadata) -> (d: u64)
    ensures
        d == digest(m@),
{
    match m {
        NodeMetadata::State { amba_state_id } => *amba_state_id as u64,
        NodeMetadata::BasicBlock { symbolic_state_id, basic_block_vaddr, .. } => match basic_block_vaddr {
            Some(v) => *v,
            None => *symbolic_state_id as u64,
        },
        NodeMetadata::CompressedBasicBlock(b) => if b.symbolic_state_ids.len() > 0 {
            b.symbolic_state_ids[0] as u64
        } else {
            0
        },
    }
}

/// The metadata with its symbolic state forgotten: a basic block seen in
/// state 0, so that one block met in several states is one node; other
/// metadata stay as they are.
pub open spec fn state_reset(m: MetadataView) -> MetadataView {
    match m {
        MetadataView::BasicBlock {
            basic_block_vaddr,
            basic_block_generation,
            basic_block_elf_vaddr,
            basic_block_content,
            ..
        } => MetadataView::BasicBlock {
            symbolic_state_id: 0,
            basic_block_vaddr,
            basic_block_generation,
            basic_block_elf_vaddr,
            basic_block_content,
        },
        _ => m,
    }
}

impl NodeMetadata {
    /// Forgets the symbolic state of a basic block, as `state_reset` says.
    pub fn reset_state(&mut self)
        ensures
            final(self)@ == state_reset(old(self)@),
    {
        let r = match &*self {
            NodeMetadata::BasicBlock {
                basic_block_vaddr,
                basic_block_generation,
                basic_block_elf_vaddr,
                basic_block_content,
                ..
            } => Some(
                NodeMetadata::BasicBlock {
                    symbolic_state_id: 0,
                    basic_block_vaddr: *basic_block_vaddr,
                    basic_block_generation: *basic_block_generation,
                    basic_block_elf_vaddr: *basic_block_elf_vaddr,
                    basic_block_content: copy_bytes(basic_block_content),
                },
            ),
            _ => None,
        };
        if let Some(r) = r {
            *self = r;
        }
    }
}

/// Whether two byte strings are equal.
pub fn same_bytes(a: &Vec<u8>, b: &Vec<u8>) -> (r: bool)
    ensures
        r == (a@ == b@),
{
    if a.len() != b.len() {
        return false;
    }
    let mut i: usize = 0;
    while i < a.len()
        invariant
            0 <= i <= a@.len(),
            a@.len() == b@.len(),
            forall|j: int| 0 <= j < i ==> a@[j] == b@[j],
        decreases a@.len() - i,
    {
        if a[i] != b[i] {
            return false;
        }
        i = i + 1;
    }
    assert(a@ =~= b@);
    true
}

/// Whether two lists of state ids are equal.
fn same_ids(a: &Vec<u32>, b: &Vec<u32>) -> (r: bool)
    ensures
        r == (a@ == b@),
{
    if a.len() != b.len() {
        return false;
    }
    let mut i: usize = 0;
    while i < a.len()
        invariant
            0 <= i <= a@.len(),
            a@.len() == b@.len(),
            forall|j: int| 0 <= j < i ==> a@[j] == b@[j],
        decreases a@.len() - i,
    {
        if a[i] != b[i] {
            return false;
        }
        i = i + 1;
    }
    assert(a@ =~= b@);
    true
}

/// Whether two optional addresses are equal.
fn same_address(a: Option<u64>, b: Option<u64>) -> (r: bool)
    ensures
        r == (a == b),
{
    match (a, b) {
        (Some(x), Some(y)) => x == y,
        (None, None) => true,
        _ => false,
    }
}

/// Whether two lists of optional addresses are equal.
fn same_addresses(a: &Vec<Option<u64>>, b: &Vec<Option<u64>>) -> (r: bool)
    ensures
        r == (a@ == b@),
{
    if a.len() != b.len() {
        return false;
    }
    let mut i: usize = 0;
    while i < a.len()
        invariant
            0 <= i <= a@.len(),
            a@.len() == b@.len(),
            forall|j: int| 0 <= j < i ==> a@[j] == b@[j],
        decreases a@.len() - i,
    {
        if !same_address(a[i], b[i]) {
            return false;
        }
        i = i + 1;
    }
    assert(a@ =~= b@);
    true
}

/// Whether two lists of byte strings are equal.
fn same_contents(a: &Vec<Vec<u8>>, b: &Vec<Vec<u8>>) -> (r: bool)
    ensures
        r == (contents_view(a@) == contents_view(b@)),
{
    if a.len() != b.len() {
        assert(contents_view(a@).len() != contents_view(b@).len());
        return false;
    }
    let mut i: usize = 0;
    while i < a.len()
        invariant
            0 <= i <= a@.len(),
            a@.len() == b@.len(),
            forall|j: int| 0 <= j < i ==> a@[j]@ == b@[j]@,
        decreases a@.len() - i,
    {
        if !same_bytes(&a[i], &b[i]) {
            assert(contents_view(a@)[i as int] != contents_view(b@)[i as int]);
            return false;
        }
        i = i + 1;
    }
    assert(contents_view(a@) =~= contents_view(b@));
    true
}

/// Whether two metadata are equal.
pub fn same_metadata(a: &NodeMetadata, b: &NodeMetadata) -> (r: bool)
    ensures
        r == (a@ == b@),
{
    match (a, b) {
        (NodeMetadata::State { amba_state_id: x }, NodeMetadata::State { amba_state_id: y }) => *x == *y,
        (
            NodeMetadata::BasicBlock {
                symbolic_state_id: s1,
                basic_block_vaddr: v1,
                basic_block_generation: g1,
                basic_block_elf_vaddr: e1,
                basic_block_content: c1,
            },
            NodeMetadata::BasicBlock {
                symbolic_state_id: s2,
                basic_block_vaddr: v2,
                basic_block_generation: g2,
                basic_block_elf_vaddr: e2,
                basic_block_content: c2,
            },
        ) => *s1 == *s2 && same_address(*v1, *v2) && same_address(*g1, *g2) && same_address(*e1, *e2)
            && same_bytes(c1, c2),
        (NodeMetadata::CompressedBasicBlock(x), NodeMetadata::CompressedBasicBlock(y)) => {
            same_ids(&x.symbolic_state_ids, &y.symbolic_state_ids) && same_addresses(
                &x.basic_block_vaddrs,
                &y.basic_block_vaddrs,
            ) && same_addresses(&x.basic_block_generations, &y.basic_block_generations) && same_addresses(
                &x.basic_block_elf_vaddrs,
                &y.basic_block_elf_vaddrs,
            ) && same_contents(&x.basic_block_contents, &y.basic_block_contents)
        },
        _ => false,
    }
}

/// A copy of a byte string.
pub fn copy_bytes(a: &Vec<u8>) -> (c: Vec<u8>)
    ensures
        c@ == a@,
{
    let mut c: Vec<u8> = Vec::new();
    let mut i: usize = 0;
    while i < a.len()
        invariant
            0 <= i <= a@.len(),
            c@ == a@.take(i as int),
        decreases a@.len() - i,
    {
        c.push(a[i]);
        i = i + 1;
        assert(c@ =~= a@.take(i as int));
    }
    assert(a@.take(a@.len() as int) =~= a@);
    c
}

/// A copy of a list of byte strings.
fn copy_contents(a: &Vec<Vec<u8>>) -> (c: Vec<Vec<u8>>)
    ensures
        contents_view(c@) == contents_view(a@),
{
    let mut c: Vec<Vec<u8>> = Vec::new();
    let mut i: usize = 0;
    while i < a.len()
        invariant
            0 <= i <= a@.len(),
            c@.len() == i,
            forall|j: int| 0 <= j < i ==> c@[j]@ == a@[j]@,
        decreases a@.len() - i,
    {
        c.push(copy_bytes(&a[i]));
        i = i + 1;
    }
    assert(contents_view(c@) =~= contents_view(a@));
    c
}

impl Clone for CompressedBasicBlock {
    fn clone(&self) -> (c: Self)
        ensures
            c.symbolic_state_ids@ == self.symbolic_state_ids@,
            c.basic_block_vaddrs@ == self.basic_block_vaddrs@,
            c.basic_block_generations@ == self.basic_block_generations@,
            c.basic_block_elf_vaddrs@ == self.basic_block_elf_vaddrs@,
            contents_view(c.basic_block_contents@) == contents_view(self.basic_block_contents@),
    {
        let mut ids: Vec<u32> = Vec::new();
        let mut vaddrs: Vec<Option<u64>> = Vec::new();
        let mut generations: Vec<Option<u64>> = Vec::new();
        let mut elf_vaddrs: Vec<Option<u64>> = Vec::new();
        let mut i: usize = 0;
        while i < self.symbolic_state_ids.len()
            invariant
                0 <= i <= self.symbolic_state_ids@.len(),
                ids@ == self.symbolic_state_ids@.take(i as int),
            decreases self.symbolic_state_ids@.len() - i,
        {
            ids.push(self.symbolic_state_ids[i]);
            i = i + 1;
            assert(ids@ =~= self.symbolic_state_ids@.take(i as int));
        }
        i = 0;
        while i < self.basic_block_vaddrs.len()
            invariant
                0 <= i <= self.basic_block_vaddrs@.len(),
                vaddrs@ == self.basic_block_vaddrs@.take(i as int),
            decreases self.basic_block_vaddrs@.len() - i,
        {
            vaddrs.push(self.basic_block_vaddrs[i]);
            i = i + 1;
            assert(vaddrs@ =~= self.basic_block_vaddrs@.take(i as int));
        }
        i = 0;
        while i < self.basic_block_generations.len()
            invariant
                0 <= i <= self.basic_block_generations@.len(),
                generations@ == self.basic_block_generations@.take(i as int),
            decreases self.basic_block_generations@.len() - i,
        {
            generations.push(self.basic_block_generations[i]);
            i = i + 1;
            assert(generations@ =~= self.basic_block_generations@.take(i as int));
        }
        i = 0;
        while i < self.basic_block_elf_vaddrs.len()
            invariant
                0 <= i <= self.basic_block_elf_vaddrs@.len(),
                elf_vaddrs@ == self.basic_block_elf_vaddrs@.take(i as int),
            decreases self.basic_block_elf_vaddrs@.len() - i,
        {
            elf_vaddrs.push(self.basic_block_elf_vaddrs[i]);
            i = i + 1;
            assert(elf_vaddrs@ =~= self.basic_block_elf_vaddrs@.take(i as int));
        }
        proof {
            assert(self.symbolic_state_ids@.take(self.symbolic_state_ids@.len() as int) =~= self.symbolic_state_ids@);
            assert(self.basic_block_vaddrs@.take(self.basic_block_vaddrs@.len() as int) =~= self.basic_block_vaddrs@);
            assert(self.basic_block_generations@.take(self.basic_block_generations@.len() as int)
                =~= self.basic_block_generations@);
            assert(self.basic_block_elf_vaddrs@.take(self.basic_block_elf_vaddrs@.len() as int)
                =~= self.basic_block_elf_vaddrs@);
        }
        CompressedBasicBlock {
            symbolic_state_ids: ids,
            basic_block_vaddrs: vaddrs,
            basic_block_generations: generations,
            basic_block_elf_vaddrs: elf_vaddrs,
            basic_block_contents: copy_contents(&self.basic_block_contents),
        }
    }
}

impl Clone for NodeMetadata {
    fn clone(&self) -> (c: Self)
        ensures
            c@ == self@,
    {
        match self {
            NodeMetadata::State { amba_state_id } => NodeMetadata::State { amba_state_id: *amba_state_id },
            NodeMetadata::BasicBlock {
                symbolic_state_id,
                basic_block_vaddr,
                basic_block_generation,
                basic_block_elf_vaddr,
                basic_block_content,
            } => NodeMetadata::BasicBlock {
                symbolic_state_id: *symbolic_state_id,
                basic_block_vaddr: *basic_block_vaddr,
                basic_block_generation: *basic_block_generation,
                basic_block_elf_vaddr: *basic_block_elf_vaddr,
                basic_block_content: copy_bytes(basic_block_content),
            },
            NodeMetadata::CompressedBasicBlock(b) => {
                let inner: CompressedBasicBlock = (**b).clone();
                NodeMetadata::CompressedBasicBlock(Box::new(inner))
            },
        }
    }
}

/// Whether a metadata is that of a single basic block.
pub open spec fn is_basic_block(m: MetadataView) -> bool {
    m is BasicBlock
}

/// The metadata of the blocks `raw`, merged into one compressed block that
/// lists their fields in order.
pub open spec fn merged_metadata(raw: Seq<MetadataView>) -> MetadataView {
    MetadataView::CompressedBasicBlock {
        symbolic_state_ids: raw.map_values(|m: MetadataView| m->symbolic_state_id),
        basic_block_vaddrs: raw.map_values(|m: MetadataView| m->basic_block_vaddr),
        basic_block_generations: raw.map_values(|m: MetadataView| m->basic_block_generation),
        basic_block_elf_vaddrs: raw.map_values(|m: MetadataView| m->basic_block_elf_vaddr),
        basic_block_contents: raw.map_values(|m: MetadataView| m->basic_block_content),
    }
}

/// The views of a list of metadata.
pub open spec fn views(raw: Seq<&NodeMetadata>) -> Seq<MetadataView> {
    raw.map_values(|m: &NodeMetadata| m@)
}

/// Merges the metadata of basic blocks into that of one compressed block.
/// Each of them must be a basic block.
pub fn merge_nodes_into_single_metadata(raw_nodes: &[&NodeMetadata]) -> (m: NodeMetadata)
    requires
        forall|i: int| 0 <= i < raw_nodes@.len() ==> is_basic_block((#[trigger] raw_nodes@[i])@),
    ensures
        m@ == merged_metadata(views(raw_nodes@)),
{
    let mut symbolic_state_ids: Vec<u32> = Vec::new();
    let mut basic_block_vaddrs: Vec<Option<u64>> = Vec::new();
    let mut basic_block_generations: Vec<Option<u64>> = Vec::new();
    let mut basic_block_elf_vaddrs: Vec<Option<u64>> = Vec::new();
    let mut basic_block_contents: Vec<Vec<u8>> = Vec::new();
    let ghost raw = views(raw_nodes@);
    let mut i: usize = 0;
    while i < raw_nodes.len()
        invariant
            0 <= i <= raw_nodes@.len(),
            raw == views(raw_nodes@),
            forall|j: int| 0 <= j < raw_nodes@.len() ==> is_basic_block((#[trigger] raw_nodes@[j])@),
            symbolic_state_ids@ == raw.take(i as int).map_values(|m: MetadataView| m->symbolic_state_id),
            basic_block_vaddrs@ == raw.take(i as int).map_values(|m: MetadataView| m->basic_block_vaddr),
            basic_block_generations@ == raw.take(i as int).map_values(
                |m: MetadataView| m->basic_block_generation,
            ),
            basic_block_elf_vaddrs@ == raw.take(i as int).map_values(|m: MetadataView| m->basic_block_elf_vaddr),
            basic_block_contents@.len() == i,
            forall|j: int| 0 <= j < i ==> (#[trigger] basic_block_contents@[j])@ == raw[j]->basic_block_content,
        decreases raw_nodes@.len() - i,
    {
        let metadata: &NodeMetadata = raw_nodes[i];
        match metadata {
            NodeMetadata::BasicBlock {
                symbolic_state_id,
                basic_block_vaddr,
                basic_block_generation,
                basic_block_elf_vaddr,
                basic_block_content,
            } => {
                symbolic_state_ids.push(*symbolic_state_id);
                basic_block_vaddrs.push(*basic_block_vaddr);
                basic_block_generations.push(*basic_block_generation);
                basic_block_elf_vaddrs.push(*basic_block_elf_vaddr);
                basic_block_contents.push(copy_bytes(basic_block_content));
            },
            _ => {
                assert(is_basic_block(raw_nodes@[i as int]@));
            },
        }
        proof {
            let t = raw.take(i + 1);
            assert(raw[i as int] == raw_nodes@[i as int]@);
            assert(symbolic_state_ids@ =~= t.map_values(|m: MetadataView| m->symbolic_state_id));
            assert(basic_block_vaddrs@ =~= t.map_values(|m: MetadataView| m->basic_block_vaddr));
            assert(basic_block_generations@ =~= t.map_values(|m: MetadataView| m->basic_block_generation));
            assert(basic_block_elf_vaddrs@ =~= t.map_values(|m: MetadataView| m->basic_block_elf_vaddr));
        }
        i = i + 1;
    }
    proof {
        assert(raw.take(raw_nodes@.len() as int) =~= raw);
        assert(contents_view(basic_block_contents@) =~= raw.map_values(|m: MetadataView| m->basic_block_content));
    }
    NodeMetadata::CompressedBasicBlock(
        Box::new(
            CompressedBasicBlock {
                symbolic_state_ids,
                basic_block_vaddrs,
                basic_block_generations,
                basic_block_elf_vaddrs,
                basic_block_contents,
            },
        ),
    )
}

} // verus!
