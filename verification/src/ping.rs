//! The ping message of the socket demos.  Its wire form is the bytes
//! of the marker `"PING "` followed by the message bytes; parsing
//! drops the first four marker bytes.

use vstd::prelude::*;

use vstd::string::{StrSliceExecFns, StringSliceAdditionalSpecFns};
use vstd::utf8::{encode_utf8, is_char_boundary};

verus! {

/// A ping request: an optional text payload after the marker.
pub struct RedisPing {
    pub message: String,
}

impl RedisPing {
    /// The serialized form handed to the transport: `"PING "` then the
    /// message bytes.
    pub fn wire_bytes(&self) -> (r: Vec<u8>)
        ensures
            r@ == encode_utf8("PING "@) + encode_utf8(self.message@),
    {
        let mut out = "PING ".as_bytes_vec();
        let mut mb = self.message.as_str().as_bytes_vec();
        out.append(&mut mb);
        out
    }

    /// Parse a received message: everything after the first four bytes
    /// is the payload; anything shorter, or a cut inside a character,
    /// parses as an empty payload.
    pub fn from_wire(s: &str) -> (r: RedisPing)
        ensures
            (s.spec_bytes().len() >= 4 && is_char_boundary(s.spec_bytes(), 4)) ==> encode_utf8(
                r.message@,
            ) == s.spec_bytes().skip(4),
            !(s.spec_bytes().len() >= 4 && is_char_boundary(s.spec_bytes(), 4)) ==> r.message@
                == Seq::<char>::empty(),
    {
        let b = s.as_bytes();
        if b.len() >= 4 && s.is_char_boundary(4) {
            let (_, m) = s.split_at(4);
            assert(m.spec_bytes() =~= s.spec_bytes().skip(4));
            RedisPing { message: m.to_owned() }
        } else {
            RedisPing { message: String::new() }
        }
    }
}

} // verus!
