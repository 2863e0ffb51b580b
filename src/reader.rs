use vstd::prelude::*;
use vstd::std_specs::cmp::PartialEqSpec;

verus! {

/// The one way a bounded read can fail.
#[derive(Debug, PartialEq, Eq, Structural)]
pub enum ReadError {
    DelimNotFound,
}

/// The first index at or after `p` that holds `d`, if any.
pub open spec fn find_from<A>(s: Seq<A>, p: int, d: A) -> Option<int>
    decreases s.len() - p,
{
    if p < 0 || p >= s.len() {
        None
    } else if s[p] == d {
        Some(p)
    } else {
        find_from(s, p + 1, d)
    }
}

/// The first index at or after `p` whose item equals `d` by `S`'s own
/// equality, if any.
pub open spec fn find_eq_from<S: PartialEq>(s: Seq<S>, p: int, d: S) -> Option<int>
    decreases s.len() - p,
{
    if p < 0 || p >= s.len() {
        None
    } else if s[p].eq_spec(&d) {
        Some(p)
    } else {
        find_eq_from(s, p + 1, d)
    }
}

/// What is left of `s` from position `p` on; empty once `p` is past the end.
pub open spec fn rest_of<A>(s: Seq<A>, p: nat) -> Seq<A> {
    if p >= s.len() {
        Seq::empty()
    } else {
        s.subrange(p as int, s.len() as int)
    }
}

pub proof fn lemma_find_from_bounds<A>(s: Seq<A>, p: int, d: A)
    ensures
        find_from(s, p, d) matches Some(k) ==> p <= k < s.len() && s[k] == d && forall|j: int|
            p <= j < k ==> s[j] != d,
        find_from(s, p, d) is None ==> forall|j: int| 0 <= p <= j < s.len() ==> s[j] != d,
    decreases s.len() - p,
{
    if 0 <= p < s.len() && s[p] != d {
        lemma_find_from_bounds(s, p + 1, d);
    }
}

/// A forward-only cursor over a slice of items.
pub struct SliceReader<'s, S> {
    pos: usize,
    data: &'s [S],
}

impl<'s, S: PartialEq> SliceReader<'s, S> {
    /// The items scanned.
    pub closed spec fn source(&self) -> Seq<S> {
        self.data@
    }

    /// The current position, which may lie past the end.
    pub closed spec fn position(&self) -> nat {
        self.pos as nat
    }

    pub fn new(data: &'s [S]) -> (r: Self)
        ensures
            r.source() == data@,
            r.position() == 0,
    {
        Self { pos: 0, data }
    }

    pub fn rest(&self) -> (r: &'s [S])
        ensures
            r@ == rest_of(self.source(), self.position()),
    {
        if self.pos >= self.data.len() {
            vstd::slice::slice_subrange(self.data, self.data.len(), self.data.len())
        } else {
            vstd::slice::slice_subrange(self.data, self.pos, self.data.len())
        }
    }

    pub fn is_eof(&self) -> (r: bool)
        ensures
            r == (self.position() >= self.source().len()),
    {
        self.pos >= self.data.len()
    }

    pub fn end(&self) -> (r: usize)
        ensures
            r == self.source().len(),
    {
        self.data.len()
    }

    pub fn seek(&self) -> (r: Option<&'s S>)
        ensures
            r.is_some() == (self.position() < self.source().len()),
            r matches Some(x) ==> *x == self.source()[self.position() as int],
    {
        if self.pos < self.data.len() {
            Some(&self.data[self.pos])
        } else {
            None
        }
    }

    /// The items from the position up to the next `delim`, without moving.
    pub fn seek_until(&self, delim: S) -> (r: Option<&'s [S]>)
        requires
            S::obeys_eq_spec(),
        ensures
            match find_eq_from(self.source(), self.position() as int, delim) {
                Some(k) => r matches Some(x) && x@ == self.source().subrange(
                    self.position() as int,
                    k,
                ),
                None => r is None,
            },
    {
        match self.find(&delim) {
            Some(k) => Some(vstd::slice::slice_subrange(self.data, self.pos, k)),
            None => None,
        }
    }

    fn find(&self, delim: &S) -> (r: Option<usize>)
        requires
            S::obeys_eq_spec(),
        ensures
            r matches Some(k) ==> find_eq_from(self.source(), self.position() as int, *delim) == Some(
                k as int,
            ),
            r is None ==> find_eq_from(self.source(), self.position() as int, *delim) is None,
            r matches Some(k) ==> self.position() <= k < self.source().len(),
    {
        let mut i: usize = self.pos;
        while i < self.data.len()
            invariant
                S::obeys_eq_spec(),
                self.pos <= i,
                find_eq_from(self.source(), self.position() as int, *delim) == find_eq_from(
                    self.source(),
                    i as int,
                    *delim,
                ),
            decreases self.data.len() - i,
        {
            if self.data[i].eq(delim) {
                return Some(i);
            }
            i = i + 1;
        }
        None
    }

    pub fn reset(&mut self)
        ensures
            final(self).source() == old(self).source(),
            final(self).position() == 0,
    {
        self.pos = 0;
    }

    pub fn skip(&mut self, n: usize)
        requires
            old(self).position() + n <= usize::MAX,
        ensures
            final(self).source() == old(self).source(),
            final(self).position() == old(self).position() + n,
    {
        self.pos = self.pos + n;
    }

    /// Moves forward while `f` holds of the current item.
    pub fn skip_while(&mut self, f: impl Fn(&S) -> bool)
        requires
            forall|x: &S| #[trigger] f.requires((x,)),
        ensures
            final(self).source() == old(self).source(),
            old(self).position() >= old(self).source().len() ==> final(self).position()
                == old(self).position(),
            old(self).position() < old(self).source().len() ==> old(self).position()
                <= final(self).position() <= old(self).source().len(),
            forall|j: int|
                old(self).position() <= j < final(self).position() ==> f.ensures(
                    (&old(self).source()[j],),
                    true,
                ),
            final(self).position() < old(self).source().len() ==> f.ensures(
                (&old(self).source()[final(self).position() as int],),
                false,
            ),
    {
        let ghost start = self.pos;
        while self.pos < self.data.len()
            invariant
                self.data == old(self).data,
                start == old(self).pos,
                start >= self.data.len() ==> self.pos == start,
                start < self.data.len() ==> start <= self.pos <= self.data.len(),
                forall|x: &S| #[trigger] f.requires((x,)),
                forall|j: int| start <= j < self.pos ==> f.ensures((&self.data@[j],), true),
            decreases self.data.len() - self.pos,
        {
            if f(&self.data[self.pos]) {
                self.pos = self.pos + 1;
            } else {
                return;
            }
        }
    }

    /// The items up to the next `delim`; the cursor is left on the `delim`.
    pub fn read_until(&mut self, delim: S) -> (r: Result<&'s [S], ReadError>)
        requires
            S::obeys_eq_spec(),
        ensures
            final(self).source() == old(self).source(),
            match find_eq_from(old(self).source(), old(self).position() as int, delim) {
                Some(k) => r matches Ok(x) && x@ == old(self).source().subrange(
                    old(self).position() as int,
                    k,
                ) && final(self).position() == k,
                None => r == Err::<&'s [S], ReadError>(ReadError::DelimNotFound)
                    && final(self).position() == old(self).position(),
            },
            r is Ok ==> final(self).position() < final(self).source().len(),
    {
        match self.find(&delim) {
            Some(k) => {
                let span = vstd::slice::slice_subrange(self.data, self.pos, k);
                self.pos = k;
                Ok(span)
            },
            None => Err(ReadError::DelimNotFound),
        }
    }
}

/// A forward-only cursor over the characters of a string; positions count
/// characters.
pub struct StrReader<'a> {
    pos: usize,
    data: &'a str,
}

impl<'a> StrReader<'a> {
    /// The characters scanned.
    pub closed spec fn source(&self) -> Seq<char> {
        self.data@
    }

    /// The current position, which may lie past the end.
    pub closed spec fn position(&self) -> nat {
        self.pos as nat
    }

    pub fn new(data: &'a str) -> (r: Self)
        ensures
            r.source() == data@,
            r.position() == 0,
    {
        Self { pos: 0, data }
    }

    pub fn rest(&self) -> (r: &'a str)
        ensures
            r@ == rest_of(self.source(), self.position()),
    {
        let len = self.data.unicode_len();
        if self.pos >= len {
            self.data.substring_char(len, len)
        } else {
            self.data.substring_char(self.pos, len)
        }
    }

    pub fn is_eof(&self) -> (r: bool)
        ensures
            r == (self.position() >= self.source().len()),
    {
        self.pos >= self.data.unicode_len()
    }

    /// The number of characters scanned.
    pub fn end(&self) -> (r: usize)
        ensures
            r == self.source().len(),
    {
        self.data.unicode_len()
    }

    pub fn skip(&mut self, n: usize)
        requires
            old(self).position() + n <= usize::MAX,
        ensures
            final(self).source() == old(self).source(),
            final(self).position() == old(self).position() + n,
    {
        self.pos = self.pos + n;
    }

    /// Moves forward while `f` holds of the current character.
    pub fn skip_while(&mut self, f: impl Fn(char) -> bool)
        requires
            forall|c: char| #[trigger] f.requires((c,)),
        ensures
            final(self).source() == old(self).source(),
            old(self).position() >= old(self).source().len() ==> final(self).position()
                == old(self).position(),
            old(self).position() < old(self).source().len() ==> old(self).position()
                <= final(self).position() <= old(self).source().len(),
            forall|j: int|
                old(self).position() <= j < final(self).position() ==> f.ensures(
                    (old(self).source()[j],),
                    true,
                ),
            final(self).position() < old(self).source().len() ==> f.ensures(
                (old(self).source()[final(self).position() as int],),
                false,
            ),
    {
        let ghost start = self.pos;
        let len = self.data.unicode_len();
        while self.pos < len
            invariant
                self.data == old(self).data,
                len == self.data@.len(),
                start == old(self).pos,
                start >= len ==> self.pos == start,
                start < len ==> start <= self.pos <= len,
                forall|c: char| #[trigger] f.requires((c,)),
                forall|j: int| start <= j < self.pos ==> f.ensures((self.data@[j],), true),
            decreases len - self.pos,
        {
            if f(self.data.get_char(self.pos)) {
                self.pos = self.pos + 1;
            } else {
                return;
            }
        }
    }

    pub fn reset(&mut self)
        ensures
            final(self).source() == old(self).source(),
            final(self).position() == 0,
    {
        self.pos = 0;
    }

    pub fn seek(&self) -> (r: Option<char>)
        ensures
            r == (if self.position() < self.source().len() {
                Some(self.source()[self.position() as int])
            } else {
                None
            }),
    {
        if self.pos < self.data.unicode_len() {
            Some(self.data.get_char(self.pos))
        } else {
            None
        }
    }

    fn find(&self, delim: char) -> (r: Option<usize>)
        ensures
            r matches Some(k) ==> find_from(self.source(), self.position() as int, delim) == Some(
                k as int,
            ),
            r is None ==> find_from(self.source(), self.position() as int, delim) is None,
            r matches Some(k) ==> self.position() <= k < self.source().len(),
    {
        let len = self.data.unicode_len();
        let mut i: usize = self.pos;
        while i < len
            invariant
                len == self.data@.len(),
                self.pos <= i,
                find_from(self.source(), self.position() as int, delim) == find_from(
                    self.source(),
                    i as int,
                    delim,
                ),
            decreases len - i,
        {
            if self.data.get_char(i) == delim {
                return Some(i);
            }
            i = i + 1;
        }
        None
    }

    /// The characters from the position up to the next `delim`, without moving.
    pub fn seek_until(&self, delim: char) -> (r: Option<&'a str>)
        ensures
            match find_from(self.source(), self.position() as int, delim) {
                Some(k) => r matches Some(x) && x@ == self.source().subrange(
                    self.position() as int,
                    k,
                ),
                None => r is None,
            },
    {
        match self.find(delim) {
            Some(k) => Some(self.data.substring_char(self.pos, k)),
            None => None,
        }
    }

    /// The characters up to the next `delim`; the cursor is left on the `delim`.
    pub fn read_until(&mut self, delim: char) -> (r: Result<&'a str, ReadError>)
        ensures
            final(self).source() == old(self).source(),
            match find_from(old(self).source(), old(self).position() as int, delim) {
                Some(k) => r matches Ok(x) && x@ == old(self).source().subrange(
                    old(self).position() as int,
                    k,
                ) && final(self).position() == k,
                None => r == Err::<&'a str, ReadError>(ReadError::DelimNotFound)
                    && final(self).position() == old(self).position(),
            },
            r is Ok ==> final(self).position() < final(self).source().len(),
            r is Ok ==> old(self).position() <= final(self).position(),
            r is Ok ==> final(self).source()[final(self).position() as int] == delim,
    {
        proof {
            lemma_find_from_bounds(self.data@, self.pos as int, delim);
        }
        match self.find(delim) {
            Some(k) => {
                let span = self.data.substring_char(self.pos, k);
                self.pos = k;
                Ok(span)
            },
            None => Err(ReadError::DelimNotFound),
        }
    }
}

} // verus!
