//! Sinks that take the lines of a dump.

use vstd::prelude::*;

verus! {

/// Where the finished lines of a dump go: a printer, a buffer, a file.
///
/// Of a sink in general nothing is known. A sink may state that what it
/// has taken is known: then `taken` holds its lines in their order.
pub trait LineSink {
    /// Whether the lines that the sink has taken are known.
    open spec fn known(&self) -> bool {
        false
    }

    /// The lines that a sink with known lines has taken.
    open spec fn taken(&self) -> Seq<Seq<char>> {
        Seq::empty()
    }

    /// Takes a finished line.
    fn put(&mut self, line: String)
        ensures
            old(self).known() ==> final(self).known() && final(self).taken() == old(self).taken().push(line@),
    ;
}

/// The text of each of a sequence of lines.
pub open spec fn text_of(lines: Seq<String>) -> Seq<Seq<char>> {
    Seq::new(lines.len(), |i: int| lines[i]@)
}

/// A vector of lines is a sink that keeps what it takes.
impl LineSink for Vec<String> {
    open spec fn known(&self) -> bool {
        true
    }

    open spec fn taken(&self) -> Seq<Seq<char>> {
        text_of(self@)
    }

    fn put(&mut self, line: String) {
        self.push(line);
        proof {
            assert(text_of(final(self)@) =~= text_of(old(self)@).push(line@));
        }
    }
}

} // verus!
