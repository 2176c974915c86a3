//! The formatter's output stream.
//!
//! Output is kept as a list of chunks, one per piece a printing step emits,
//! and joined only at the end. The boundaries matter in one place: a table
//! written as a `{% table %}` tag reads what its rows produced piece by piece,
//! telling a row of cells from a loose line of text, and printing each loose
//! line on its own.

use vstd::prelude::*;

use crate::text::{
    join, lead_ws, lemma_lead_bound, push_chars, push_joined, trim_start_chars, trim_start_spec,
};

verus! {

/// One piece of output, as the specifications see it.
pub enum SpecChunk {
    /// A run of text.
    Text(Seq<char>),
    /// A table row, as its printed cells.
    Row(Seq<Seq<char>>),
}

/// One piece of output.
pub enum Chunk {
    /// A run of text.
    Text(Vec<char>),
    /// A table row, as its printed cells.
    Row(Vec<Vec<char>>),
}

/// The characters of each cell.
pub open spec fn cells_view(cells: Seq<Vec<char>>) -> Seq<Seq<char>> {
    Seq::new(cells.len(), |i: int| cells[i]@)
}

impl View for Chunk {
    type V = SpecChunk;

    open spec fn view(&self) -> SpecChunk {
        match self {
            Chunk::Text(t) => SpecChunk::Text(t@),
            Chunk::Row(cells) => SpecChunk::Row(cells_view(cells@)),
        }
    }
}

/// The output produced so far.
pub struct Out {
    /// The pieces, in order.
    pub chunks: Vec<Chunk>,
}

impl View for Out {
    type V = Seq<SpecChunk>;

    open spec fn view(&self) -> Seq<SpecChunk> {
        Seq::new(self.chunks@.len(), |i: int| self.chunks@[i]@)
    }
}

/// A single text piece.
pub open spec fn text(t: Seq<char>) -> Seq<SpecChunk> {
    seq![SpecChunk::Text(t)]
}

/// What a piece reads as once everything is joined. A row joins as a
/// JavaScript array does inside a string: its cells, comma-separated.
pub open spec fn chunk_text(c: SpecChunk) -> Seq<char> {
    match c {
        SpecChunk::Text(t) => t,
        SpecChunk::Row(cells) => join(cells, seq![',']),
    }
}

/// All the pieces, joined.
pub open spec fn joined(chunks: Seq<SpecChunk>) -> Seq<char>
    decreases chunks.len(),
{
    if chunks.len() == 0 {
        Seq::empty()
    } else {
        joined(chunks.drop_last()) + chunk_text(chunks.last())
    }
}

/// The stream with leading blank text pieces dropped and the first other
/// text piece left-trimmed. A row stops the trimming where it stands.
pub open spec fn trim_start_chunks(chunks: Seq<SpecChunk>) -> Seq<SpecChunk>
    decreases chunks.len(),
{
    if chunks.len() == 0 {
        chunks
    } else {
        match chunks[0] {
            SpecChunk::Text(t) => if trim_start_spec(t).len() == 0 {
                trim_start_chunks(chunks.drop_first())
            } else {
                seq![SpecChunk::Text(trim_start_spec(t))] + chunks.drop_first()
            },
            SpecChunk::Row(_) => chunks,
        }
    }
}

impl Out {
    /// Nothing yet.
    pub fn new() -> (o: Out)
        ensures
            o@ == Seq::<SpecChunk>::empty(),
    {
        Out { chunks: Vec::new() }
    }

    /// Add a piece.
    pub fn push(&mut self, c: Chunk)
        ensures
            final(self)@ == old(self)@.push(c@),
    {
        self.chunks.push(c);
        assert(self@ =~= old(self)@.push(c@));
    }

    /// Add a run of text.
    pub fn text(&mut self, t: Vec<char>)
        ensures
            final(self)@ == old(self)@ + text(t@),
    {
        self.push(Chunk::Text(t));
        assert(old(self)@.push(SpecChunk::Text(t@)) =~= old(self)@ + text(t@));
    }

    /// Add a table row.
    pub fn row(&mut self, cells: Vec<Vec<char>>)
        ensures
            final(self)@ == old(self)@.push(SpecChunk::Row(cells_view(cells@))),
    {
        self.push(Chunk::Row(cells));
    }

    /// Add everything another stream produced.
    pub fn append(&mut self, other: Out)
        ensures
            final(self)@ == old(self)@ + other@,
    {
        let mut other = other;
        let ghost rest = other@;
        let mut taken: Vec<Chunk> = Vec::new();
        std::mem::swap(&mut taken, &mut other.chunks);
        let ghost start = self@;
        let ghost view = Seq::new(taken@.len(), |j: int| taken@[j]@);
        assert(view =~= rest);
        let mut it = taken;
        let ghost mut i: int = 0;
        while it.len() > 0
            invariant
                view == rest,
                0 <= i <= view.len(),
                it@.len() == view.len() - i,
                forall|j: int| 0 <= j < it@.len() ==> #[trigger] it@[j]@ == view[i + j],
                self@ == start + view.take(i),
            decreases it.len(),
        {
            let c = it.remove(0);
            proof {
                assert(c@ == view[i]);
            }
            self.push(c);
            proof {
                i = i + 1;
            }
            assert(self@ =~= start + view.take(i));
        }
        assert(view.take(i) =~= view);
    }

    /// Everything, joined.
    pub fn joined(&self) -> (r: Vec<char>)
        ensures
            r@ == joined(self@),
    {
        let mut out: Vec<char> = Vec::new();
        let mut i: usize = 0;
        while i < self.chunks.len()
            invariant
                i <= self.chunks@.len(),
                out@ == joined(self@.take(i as int)),
            decreases self.chunks.len() - i,
        {
            proof {
                assert(self@.take(i + 1).drop_last() =~= self@.take(i as int));
            }
            match &self.chunks[i] {
                Chunk::Text(t) => push_chars(&mut out, t),
                Chunk::Row(cells) => {
                    let comma = vec![','];
                    push_joined(&mut out, cells, &comma);
                    assert(comma@ =~= seq![',']);
                },
            }
            i = i + 1;
        }
        assert(self@.take(i as int) =~= self@);
        out
    }

    /// Drop leading blank text and left-trim the first text that is not.
    pub fn trim_start(self) -> (o: Out)
        ensures
            o@ == trim_start_chunks(self@),
    {
        let ghost all = self@;
        let mut it = self.chunks;
        let mut out = Out::new();
        let mut done = false;
        let ghost mut k: int = 0;
        assert(all.skip(0) =~= all);
        while it.len() > 0
            invariant
                0 <= k <= all.len(),
                it@.len() == all.len() - k,
                forall|j: int| 0 <= j < it@.len() ==> #[trigger] it@[j]@ == all[k + j],
                !done ==> out@.len() == 0 && trim_start_chunks(all) == trim_start_chunks(all.skip(k)),
                done ==> out@ + all.skip(k) == trim_start_chunks(all),
            decreases it.len(),
        {
            let c = it.remove(0);
            let ghost cv = all[k];
            assert(c@ == cv);
            assert(all.skip(k)[0] == cv);
            assert(all.skip(k).drop_first() =~= all.skip(k + 1));
            if done {
                let ghost before = out@;
                out.push(c);
                assert(out@ + all.skip(k + 1) =~= before + all.skip(k));
            } else {
                match c {
                    Chunk::Text(t) => {
                        let trimmed = trim_start_chars(&t);
                        if trimmed.len() > 0 {
                            out.text(trimmed);
                            done = true;
                            assert(out@ + all.skip(k + 1) =~= trim_start_chunks(all.skip(k)));
                        }
                    },
                    Chunk::Row(cells) => {
                        out.push(Chunk::Row(cells));
                        done = true;
                        assert(out@ + all.skip(k + 1) =~= all.skip(k));
                    },
                }
            }
            proof {
                k = k + 1;
            }
        }
        assert(all.skip(k) =~= Seq::<SpecChunk>::empty());
        assert(out@ + all.skip(k) =~= out@);
        if !done {
            assert(trim_start_chunks(all.skip(k)) =~= Seq::<SpecChunk>::empty());
        }
        out
    }
}

} // verus!
