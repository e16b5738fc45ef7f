use vstd::prelude::*;

verus! {

/// ASCII whitespace: space, tab, line feed, form feed and carriage return.
pub open spec fn is_space(b: u8) -> bool {
    b == 0x20 || b == 0x09 || b == 0x0a || b == 0x0c || b == 0x0d
}

/// Length of the run of non-whitespace bytes at the start of `s`.
pub open spec fn word_len(s: Seq<u8>) -> nat
    decreases s.len(),
{
    if s.len() == 0 || is_space(s[0]) {
        0
    } else {
        1 + word_len(s.drop_first())
    }
}

/// The whitespace-separated tokens of `s`, in order.
pub open spec fn tokens(s: Seq<u8>) -> Seq<Seq<u8>>
    decreases s.len(),
{
    if s.len() == 0 {
        Seq::empty()
    } else if is_space(s[0]) {
        tokens(s.drop_first())
    } else {
        proof {
            lemma_word_len_bound(s);
        }
        seq![s.take(word_len(s) as int)] + tokens(s.skip(word_len(s) as int))
    }
}

/// A leading word is never longer than the sequence it starts.
pub proof fn lemma_word_len_bound(s: Seq<u8>)
    ensures
        word_len(s) <= s.len(),
    decreases s.len(),
{
    if s.len() > 0 && !is_space(s[0]) {
        lemma_word_len_bound(s.drop_first());
    }
}

/// A scanner over one line of input at a time: it hands out the line's
/// whitespace-separated tokens in order, and takes the next line when asked to.
pub struct USC {
    bytes: Vec<u8>,
    pos: usize,
}

impl USC {
    /// The tokens not yet handed out.
    pub closed spec fn pending(&self) -> Seq<Seq<u8>> {
        tokens(self.bytes@.skip(self.pos as int))
    }

    pub closed spec fn wf(&self) -> bool {
        self.pos <= self.bytes@.len()
    }

    /// Creates a scanner with no pending token.
    pub fn new() -> (r: Self)
        ensures
            r.wf(),
            r.pending() == Seq::<Seq<u8>>::empty(),
    {
        let r = USC { bytes: Vec::new(), pos: 0 };
        assert(r.bytes@.skip(0).len() == 0);
        r
    }

    /// Replaces what is left of the current line with `line`.
    pub fn load_line(&mut self, line: Vec<u8>)
        ensures
            final(self).wf(),
            final(self).pending() == tokens(line@),
    {
        self.bytes = line;
        self.pos = 0;
        assert(self.bytes@.skip(0) =~= line@);
    }

    /// Hands out the next pending token, or `None` when the line is used up.
    pub fn next_token(&mut self) -> (r: Option<Vec<u8>>)
        requires
            old(self).wf(),
        ensures
            final(self).wf(),
            old(self).pending().len() == 0 ==> r.is_none() && final(self).pending().len() == 0,
            old(self).pending().len() > 0 ==> r.is_some() && r.unwrap()@ == old(self).pending()[0]
                && final(self).pending() == old(self).pending().drop_first(),
    {
        let ghost start_pending = self.pending();
        let n = self.bytes.len();
        while self.pos < n && is_space_byte(self.bytes[self.pos])
            invariant
                self.wf(),
                n == self.bytes@.len(),
                self.pending() == start_pending,
            decreases n - self.pos,
        {
            let ghost s = self.bytes@.skip(self.pos as int);
            assert(s.drop_first() =~= self.bytes@.skip(self.pos + 1));
            self.pos = self.pos + 1;
        }
        if self.pos == n {
            assert(self.bytes@.skip(self.pos as int).len() == 0);
            return None;
        }
        let start = self.pos;
        let ghost s = self.bytes@.skip(start as int);
        let mut word: Vec<u8> = Vec::new();
        while self.pos < n && !is_space_byte(self.bytes[self.pos])
            invariant
                self.wf(),
                n == self.bytes@.len(),
                start <= self.pos,
                s == self.bytes@.skip(start as int),
                word@ == s.take(self.pos - start),
                word_len(s) == (self.pos - start) + word_len(self.bytes@.skip(self.pos as int)),
            decreases n - self.pos,
        {
            let ghost t = self.bytes@.skip(self.pos as int);
            assert(t.drop_first() =~= self.bytes@.skip(self.pos + 1));
            word.push(self.bytes[self.pos]);
            self.pos = self.pos + 1;
            assert(word@ =~= s.take(self.pos - start));
        }
        proof {
            let k = (self.pos - start) as int;
            assert(word_len(s) == k);
            assert(s.skip(k) =~= self.bytes@.skip(self.pos as int));
        }
        Some(word)
    }
}

/// Tests a byte for ASCII whitespace.
fn is_space_byte(b: u8) -> (r: bool)
    ensures
        r == is_space(b),
{
    b == 0x20 || b == 0x09 || b == 0x0a || b == 0x0c || b == 0x0d
}

} // verus!
