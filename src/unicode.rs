use vstd::prelude::*;
use vstd::string::StringSliceAdditionalSpecFns;
use vstd::utf8::is_char_boundary;

verus! {

/// `k` is a cut of `bytes` that keeps at most `max_bytes` bytes without splitting a character.
pub open spec fn is_fitting_cut(bytes: Seq<u8>, max_bytes: int, k: int) -> bool {
    0 <= k <= max_bytes && k <= bytes.len() && is_char_boundary(bytes, k)
}

/// `k` is the longest fitting cut: no character boundary lies after it within the limit.
pub open spec fn is_longest_cut(bytes: Seq<u8>, max_bytes: int, k: int) -> bool {
    &&& is_fitting_cut(bytes, max_bytes, k)
    &&& forall|j: int| k < j <= max_bytes && j <= bytes.len() ==> !is_char_boundary(bytes, j)
}

pub trait UnicodeByteLimit {
    /// The UTF-8 bytes of the text.
    spec fn text_bytes(&self) -> Seq<u8>;

    /// Safely limit the length of a unicode string: the longest prefix of at most
    /// `max_bytes` bytes that does not split a character.
    fn unicode_byte_limit(&self, max_bytes: usize) -> (r: &str)
        ensures
            self.text_bytes().len() <= max_bytes ==> r.spec_bytes() == self.text_bytes(),
            self.text_bytes().len() > max_bytes ==> {
                &&& r.spec_bytes() == self.text_bytes().subrange(0, r.spec_bytes().len() as int)
                &&& is_longest_cut(self.text_bytes(), max_bytes as int, r.spec_bytes().len() as int)
            },
    ;
}

impl UnicodeByteLimit for str {
    open spec fn text_bytes(&self) -> Seq<u8> {
        self.spec_bytes()
    }

    fn unicode_byte_limit(&self, max_bytes: usize) -> (r: &str) {
        broadcast use vstd::utf8::encode_utf8_valid_utf8;

        if self.as_bytes().len() <= max_bytes {
            return self;
        }
        let mut k: usize = max_bytes;
        while !self.is_char_boundary(k)
            invariant
                k <= max_bytes,
                max_bytes < self.spec_bytes().len(),
                vstd::utf8::valid_utf8(self.spec_bytes()),
                forall|j: int| k < j <= max_bytes ==> !is_char_boundary(self.spec_bytes(), j),
            decreases k,
        {
            k = k - 1;
        }
        let (head, _tail) = self.split_at(k);
        head
    }
}

} // verus!
