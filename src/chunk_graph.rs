use vstd::prelude::*;

use crate::module::ModuleId;

verus! {

/// Index of a chunk in a chunk graph.
pub type ChunkId = usize;

/// Index of a chunk group in a chunk graph.
pub type ChunkGroupId = usize;

/// A named output unit: the modules it holds, in first-discovered order.
pub struct Chunk {
    pub name: Option<String>,
    pub modules: Vec<ModuleId>,
}

/// The chunks reachable from one entry point.
pub struct ChunkGroup {
    pub chunks: Vec<ChunkId>,
}

/// The chunk a name was last registered for, if any: a later registration overrides.
pub open spec fn latest_named(log: Seq<(String, usize)>, name: Seq<char>) -> Option<usize>
    decreases log.len(),
{
    if log.len() == 0 {
        None
    } else if log.last().0@ == name {
        Some(log.last().1)
    } else {
        latest_named(log.drop_last(), name)
    }
}

fn lookup_name(log: &Vec<(String, usize)>, name: &String) -> (r: Option<usize>)
    ensures
        r == latest_named(log@, name@),
{
    let mut i: usize = log.len();
    proof {
        assert(log@.subrange(0, log@.len() as int) =~= log@);
    }
    while i > 0
        invariant
            i <= log@.len(),
            latest_named(log@, name@) == latest_named(log@.subrange(0, i as int), name@),
        decreases i,
    {
        let ghost s = log@.subrange(0, i as int);
        if log[i - 1].0 == *name {
            return Some(log[i - 1].1);
        }
        proof {
            assert(s.drop_last() =~= log@.subrange(0, i - 1));
        }
        i = i - 1;
    }
    proof {
        assert(log@.subrange(0, 0) =~= Seq::<(String, usize)>::empty());
    }
    None
}

/// The chunks and chunk groups of one build, with their names.
pub struct ChunkGraph {
    /// Name registrations of chunks, in order; the last one for a name counts.
    pub named_chunks: Vec<(String, ChunkId)>,
    /// Name registrations of chunk groups, in order; the last one for a name counts.
    pub named_chunk_groups: Vec<(String, ChunkGroupId)>,
    pub chunks: Vec<Chunk>,
    pub chunk_groups: Vec<ChunkGroup>,
}

impl ChunkGraph {
    pub fn new() -> (r: ChunkGraph)
        ensures
            r.named_chunks@.len() == 0,
            r.named_chunk_groups@.len() == 0,
            r.chunks@.len() == 0,
            r.chunk_groups@.len() == 0,
    {
        ChunkGraph {
            named_chunks: Vec::new(),
            named_chunk_groups: Vec::new(),
            chunks: Vec::new(),
            chunk_groups: Vec::new(),
        }
    }

    pub fn add_chunk(&mut self, chunk: Chunk) -> (id: ChunkId)
        ensures
            id == old(self).chunks@.len(),
            final(self).chunks@ == old(self).chunks@.push(chunk),
            final(self).chunk_groups == old(self).chunk_groups,
            final(self).named_chunks == old(self).named_chunks,
            final(self).named_chunk_groups == old(self).named_chunk_groups,
    {
        let id = self.chunks.len();
        self.chunks.push(chunk);
        id
    }

    pub fn add_chunk_group(&mut self, chunk_group: ChunkGroup) -> (id: ChunkGroupId)
        ensures
            id == old(self).chunk_groups@.len(),
            final(self).chunk_groups@ == old(self).chunk_groups@.push(chunk_group),
            final(self).chunks == old(self).chunks,
            final(self).named_chunks == old(self).named_chunks,
            final(self).named_chunk_groups == old(self).named_chunk_groups,
    {
        let id = self.chunk_groups.len();
        self.chunk_groups.push(chunk_group);
        id
    }

    /// Allocates an empty chunk; a name is registered for it, overriding an earlier one.
    pub fn create_chunk(&mut self, name: Option<String>) -> (id: ChunkId)
        ensures
            id == old(self).chunks@.len(),
            final(self).chunks@.len() == old(self).chunks@.len() + 1,
            forall|c: int| 0 <= c < old(self).chunks@.len() ==> #[trigger] final(self).chunks@[c] == old(self).chunks@[c],
            final(self).chunks@[id as int].name == name,
            final(self).chunks@[id as int].modules@.len() == 0,
            final(self).chunk_groups == old(self).chunk_groups,
            final(self).named_chunk_groups == old(self).named_chunk_groups,
            match name {
                Some(n) => final(self).named_chunks@ == old(self).named_chunks@.push((n, id)),
                None => final(self).named_chunks == old(self).named_chunks,
            },
    {
        let id = self.add_chunk(Chunk { name: name.clone(), modules: Vec::new() });
        match name {
            Some(n) => {
                self.named_chunks.push((n, id));
            },
            None => {},
        }
        id
    }

    /// Allocates a chunk group holding exactly `entry_chunk`; a name is registered for it.
    pub fn create_chunk_group(&mut self, entry_chunk: ChunkId, name: Option<String>) -> (id: ChunkGroupId)
        ensures
            id == old(self).chunk_groups@.len(),
            final(self).chunk_groups@.len() == old(self).chunk_groups@.len() + 1,
            forall|c: int| 0 <= c < old(self).chunk_groups@.len() ==> #[trigger] final(self).chunk_groups@[c] == old(self).chunk_groups@[c],
            final(self).chunk_groups@[id as int].chunks@ == seq![entry_chunk],
            final(self).chunks == old(self).chunks,
            final(self).named_chunks == old(self).named_chunks,
            match name {
                Some(n) => final(self).named_chunk_groups@ == old(self).named_chunk_groups@.push((n, id)),
                None => final(self).named_chunk_groups == old(self).named_chunk_groups,
            },
    {
        let mut chunks: Vec<ChunkId> = Vec::new();
        chunks.push(entry_chunk);
        proof {
            assert(chunks@ =~= seq![entry_chunk]);
        }
        let id = self.add_chunk_group(ChunkGroup { chunks });
        match name {
            Some(n) => {
                self.named_chunk_groups.push((n, id));
            },
            None => {},
        }
        id
    }

    /// Gives chunk `id` its modules.
    pub fn set_chunk_modules(&mut self, id: ChunkId, modules: Vec<ModuleId>)
        requires
            id < old(self).chunks@.len(),
        ensures
            final(self).chunks@.len() == old(self).chunks@.len(),
            forall|c: int| 0 <= c < old(self).chunks@.len() && c != id ==> #[trigger] final(self).chunks@[c] == old(self).chunks@[c],
            final(self).chunks@[id as int].name == old(self).chunks@[id as int].name,
            final(self).chunks@[id as int].modules@ == modules@,
            final(self).chunk_groups == old(self).chunk_groups,
            final(self).named_chunks == old(self).named_chunks,
            final(self).named_chunk_groups == old(self).named_chunk_groups,
    {
        let name = self.chunks[id].name.clone();
        self.chunks.set(id, Chunk { name, modules });
    }

    pub fn chunk_by_id(&self, id: ChunkId) -> (r: &Chunk)
        requires
            id < self.chunks@.len(),
        ensures
            *r == self.chunks@[id as int],
    {
        &self.chunks[id]
    }

    pub fn get_chunk_modules(&self, id: ChunkId) -> (r: &Vec<ModuleId>)
        requires
            id < self.chunks@.len(),
        ensures
            r@ == self.chunks@[id as int].modules@,
    {
        &self.chunks[id].modules
    }

    /// The chunk last registered under `name`.
    pub fn chunk_by_name(&self, name: &String) -> (r: Option<ChunkId>)
        ensures
            r == latest_named(self.named_chunks@, name@),
    {
        lookup_name(&self.named_chunks, name)
    }

    /// The chunk group last registered under `name`.
    pub fn chunk_group_by_name(&self, name: &String) -> (r: Option<ChunkGroupId>)
        ensures
            r == latest_named(self.named_chunk_groups@, name@),
    {
        lookup_name(&self.named_chunk_groups, name)
    }
}

} // verus!
