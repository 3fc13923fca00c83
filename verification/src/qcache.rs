//! Bookkeeping of the disk cache of quantized tensors.
//!
//! When caching is on, quantized tensors are served from a file if there is
//! one; if there is none, the tensors quantized during a load are remembered
//! and written in one go.
use vstd::prelude::*;

verus! {

/// Names as sequences.
pub open spec fn names_view(names: Seq<String>) -> Seq<Seq<char>> {
    Seq::new(names.len(), |i: int| names[i]@)
}

/// State of an enabled cache.
#[derive(Debug)]
pub struct State {
    /// Names of the tensors in the file, if it could be read.
    pub reader: Option<Vec<String>>,
    /// Names of the tensors to be written.
    pub pending: Vec<String>,
    /// The file has been written since the cache was opened.
    pub written: bool,
}

/// The cache, if it is enabled.
#[derive(Debug)]
pub struct QCache {
    pub state: Option<State>,
}

impl QCache {
    /// Names of the tensors that can be served.
    pub open spec fn served(&self) -> Option<Seq<Seq<char>>> {
        match self.state {
            Some(s) => match s.reader {
                Some(r) => Some(names_view(r@)),
                None => None,
            },
            None => None,
        }
    }

    /// Names of the tensors that are to be written, in order.
    pub open spec fn pending(&self) -> Seq<Seq<char>> {
        match self.state {
            Some(s) => names_view(s.pending@),
            None => Seq::empty(),
        }
    }

    pub open spec fn enabled(&self) -> bool {
        self.state is Some
    }

    /// There is a cache file: it was there to be read, or has been written.
    pub open spec fn has_file(&self) -> bool {
        match self.state {
            Some(s) => s.reader is Some || s.written,
            None => false,
        }
    }

    /// No caching.
    pub fn disabled() -> (r: QCache)
        ensures
            !r.enabled(),
            !r.has_file(),
            r.served() is None,
            r.pending().len() == 0,
    {
        QCache { state: None }
    }

    /// Caching with the names that were found in the file, if it could be read.
    pub fn open(reader: Option<Vec<String>>) -> (r: QCache)
        ensures
            r.enabled(),
            r.served() == (match reader {
                Some(v) => Some(names_view(v@)),
                None => None::<Seq<Seq<char>>>,
            }),
            r.has_file() == reader is Some,
            r.pending().len() == 0,
    {
        QCache { state: Some(State { reader, pending: Vec::new(), written: false }) }
    }

    /// The tensor can be served from the file.
    pub fn get(&self, name: &String) -> (hit: bool)
        ensures
            hit <==> (self.served() matches Some(names) && names.contains(name@)),
    {
        match &self.state {
            None => false,
            Some(st) => match &st.reader {
                None => false,
                Some(names) => {
                    let ghost view = names_view(names@);
                    let mut i: usize = 0;
                    while i < names.len()
                        invariant
                            i <= names.len(),
                            view == names_view(names@),
                            self.served() == Some(view),
                            forall|j: int| 0 <= j < i ==> #[trigger] view[j] != name@,
                        decreases names.len() - i,
                    {
                        if names[i] == *name {
                            assert(view[i as int] == name@);
                            return true;
                        }
                        i += 1;
                    }
                    assert(!view.contains(name@));
                    false
                },
            },
        }
    }

    /// Remembers a freshly quantized tensor for writing; nothing happens when
    /// there is a cache file already or caching is off. Says whether it did.
    pub fn put(&mut self, name: String) -> (kept: bool)
        ensures
            kept <==> old(self).enabled() && !old(self).has_file(),
            final(self).enabled() == old(self).enabled(),
            final(self).has_file() == old(self).has_file(),
            final(self).served() == old(self).served(),
            final(self).pending() == (if kept {
                old(self).pending().push(name@)
            } else {
                old(self).pending()
            }),
    {
        let ghost before = self.pending();
        match self.state.take() {
            None => {
                self.state = None;
                false
            },
            Some(mut st) => {
                if st.reader.is_none() && !st.written {
                    st.pending.push(name);
                    assert(names_view(st.pending@) =~= before.push(name@));
                    self.state = Some(st);
                    true
                } else {
                    self.state = Some(st);
                    false
                }
            },
        }
    }

    /// How many tensors are to be written; none when there is nothing to do.
    pub fn flush(&self) -> (n: usize)
        ensures
            n == (if self.enabled() && !self.has_file() {
                self.pending().len()
            } else {
                0
            }),
    {
        match &self.state {
            Some(st) if st.reader.is_none() && !st.written => st.pending.len(),
            _ => 0,
        }
    }

    /// The pending tensors have been written: from now on there is a cache file.
    pub fn flushed(&mut self)
        ensures
            final(self).enabled() == old(self).enabled(),
            final(self).served() == old(self).served(),
            old(self).flush_due() ==> final(self).pending().len() == 0 && final(self).has_file(),
            !old(self).flush_due() ==> *final(self) == *old(self),
    {
        if self.flush() > 0 {
            match self.state.take() {
                None => {},
                Some(mut st) => {
                    st.pending = Vec::new();
                    st.written = true;
                    self.state = Some(st);
                },
            }
        }
    }

    /// There is something to write.
    pub open spec fn flush_due(&self) -> bool {
        self.enabled() && !self.has_file() && self.pending().len() > 0
    }

    /// Where there is a cache file, read or just written, nothing is ever due to
    /// be written over it.
    pub proof fn law_file_is_written_once(&self)
        requires
            self.has_file(),
        ensures
            !self.flush_due(),
    {
    }
}

} // verus!
