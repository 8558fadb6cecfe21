//! Peer IDs: 18 bytes, drawn at random.
use vstd::prelude::*;
use vstd::std_specs::cmp::PartialEqSpecImpl;
use vstd::std_specs::convert::FromSpecImpl;
use vstd::string::*;
use vstd::utf8::encode_utf8;

use bytes::BytesMut;
use rand::rngs::OsRng;
use rand::RngCore;

use crate::buffer::{buffer_bytes, buffer_copy_to_array18, buffer_limit, buffer_put_slice, buffer_remaining};
use crate::error::{parsing_error, result_is, Error, ErrorView};
use crate::util::{
    base64_decode, base64_encode, base64_url_decoding, base64_url_encoding, is_url_safe_char,
};

verus! {

/// The number of bytes of a peer ID.
pub const PEER_ID_LEN: usize = 18;

/// `rand::rngs::OsRng`, the operating system's source of random bytes.
#[verifier::external_type_specification]
#[verifier::external_body]
pub struct ExOsRng(OsRng);

/// The value `OsRng`, a handle on the operating system's source of random
/// bytes. Nothing is claimed of it.
#[verifier::external_body]
fn os_rng() -> OsRng {
    OsRng
}

/// `RngCore::try_fill_bytes` on an `OsRng`: fills `dest` with random bytes
/// from the operating system; `false` where the source reports an error.
/// Nothing is claimed of the bytes, nor of when the source fails.
#[verifier::external_body]
fn try_fill_random(rng: &mut OsRng, dest: &mut [u8; 18]) -> bool {
    rng.try_fill_bytes(dest).is_ok()
}

/// Holds a unique ID for each Peer. Designed to be drawn at random, as there
/// 2.23e43 (256 ** 18) possible addresses.
#[derive(Debug, Clone, Copy, Hash)]
pub struct PeerId(pub [u8; 18]);

impl View for PeerId {
    type V = Seq<u8>;

    open spec fn view(&self) -> Seq<u8> {
        self.0@
    }
}

/// The text form of the peer ID with the bytes `id`: its URL-safe base64
/// encoding.
pub open spec fn peer_id_text(id: Seq<u8>) -> Seq<char> {
    base64_url_encoding(id)
}

/// The outcome of parsing the text `s` as a peer ID: the bytes that its
/// URL-safe base64 decoding gives, if there are 18 of them.
pub open spec fn peer_id_parse(s: Seq<char>) -> Result<Seq<u8>, ErrorView> {
    match base64_url_decoding(s) {
        None => Err(ErrorView::Base64Decode { string: s }),
        Some(b) => if b.len() == 18 {
            Ok(b)
        } else {
            Err(parsing_error(s, "PeerId"@))
        },
    }
}

/// What parsing the text of a peer ID gives: the ID whose bytes are exactly
/// the bytes that the text decodes to, when there are 18 of them. Text that
/// decodes to any other number of bytes gives `Error::Parsing` with the text
/// and `PeerId`; text that is not base64 gives `Error::Base64Decode` with the
/// text.
pub proof fn lemma_peer_id_parse(s: Seq<char>)
    ensures
        peer_id_parse(s) is Ok ==> base64_url_decoding(s) == Some(peer_id_parse(s)->Ok_0)
            && peer_id_parse(s)->Ok_0.len() == 18,
        base64_url_decoding(s) is Some && base64_url_decoding(s)->0.len() != 18 ==> peer_id_parse(s)
            == Err::<Seq<u8>, ErrorView>(ErrorView::Parsing { from: s, to: "PeerId"@ }),
        base64_url_decoding(s) is None ==> peer_id_parse(s) == Err::<Seq<u8>, ErrorView>(
            ErrorView::Base64Decode { string: s },
        ),
{
}

/// Reading a peer ID back from the front of a buffer to which it was written
/// gives the same ID and leaves what followed it.
pub proof fn lemma_peer_id_bytes_roundtrip(id: Seq<u8>, rest: Seq<u8>)
    requires
        id.len() == 18,
    ensures
        (id + rest).len() >= 18,
        (id + rest).take(18) == id,
        (id + rest).skip(18) == rest,
{
    assert((id + rest).take(18) =~= id);
    assert((id + rest).skip(18) =~= rest);
}

impl PeerId {
    /// Generates a new empty peer ID.
    pub fn empty() -> (id: PeerId)
        ensures
            id@ == Seq::new(18, |i: int| 0u8),
    {
        let id = PeerId([0u8; 18]);
        assert(id@ =~= Seq::new(18, |i: int| 0u8));
        id
    }

    /// Generates a new random peer ID, drawing its bytes from the operating
    /// system. `None` where the operating system cannot give random bytes.
    pub fn random() -> (r: Option<PeerId>)
        ensures
            r matches Some(id) ==> id@.len() == 18,
    {
        let mut rng = os_rng();
        Self::by_rng(&mut rng)
    }

    /// Generates a new random peer ID from a source of random bytes. `None`
    /// where the source fails.
    pub fn by_rng(rng: &mut OsRng) -> (r: Option<PeerId>)
        ensures
            r matches Some(id) ==> id@.len() == 18,
    {
        let mut id = [0u8; 18];
        if try_fill_random(rng, &mut id) {
            Some(PeerId(id))
        } else {
            None
        }
    }

    /// Reads a peer ID from the front of a buffer. A buffer of fewer than 18
    /// bytes gives `Error::Deserialization` and is left as it was.
    pub fn read_from_bytes(bytes: &mut BytesMut) -> (r: Result<PeerId, Error>)
        ensures
            buffer_bytes(*old(bytes)).len() < 18 ==> {
                &&& r == Err::<PeerId, Error>(Error::Deserialization)
                &&& buffer_bytes(*final(bytes)) == buffer_bytes(*old(bytes))
            },
            buffer_bytes(*old(bytes)).len() >= 18 ==> {
                &&& r matches Ok(id) && id@ == buffer_bytes(*old(bytes)).take(18)
                &&& buffer_bytes(*final(bytes)) == buffer_bytes(*old(bytes)).skip(18)
            },
    {
        if buffer_remaining(bytes) < 18 {
            Err(Error::Deserialization)
        } else {
            let mut id = [0u8; 18];
            buffer_copy_to_array18(bytes, &mut id);
            Ok(PeerId(id))
        }
    }

    /// Writes the peer ID to the back of a buffer.
    pub fn write_to_bytes(&self, bytes: &mut BytesMut)
        requires
            buffer_bytes(*old(bytes)).len() + 18 <= buffer_limit(),
        ensures
            buffer_bytes(*final(bytes)) == buffer_bytes(*old(bytes)) + self@,
    {
        buffer_put_slice(bytes, &self.0)
    }

    /// The bytes of the ID.
    pub fn as_ref(&self) -> (b: &[u8; 18])
        ensures
            b@ == self@,
    {
        &self.0
    }

    /// Parses a peer ID from its URL-safe base64 text. Text that is not such
    /// base64 gives `Error::Base64Decode`; text that decodes to other than 18
    /// bytes gives `Error::Parsing` with the text and `PeerId`.
    pub fn from_str(string: &str) -> (r: Result<PeerId, Error>)
        requires
            string.spec_bytes().len() <= usize::MAX - 3,
        ensures
            result_is(r, peer_id_parse(string@)),
            forall|b: Seq<u8>|
                #![trigger base64_url_encoding(b)]
                string@ == base64_url_encoding(b) && b.len() == 18 ==> (r matches Ok(id) && id@
                    == b),
    {
        let id_vec = match base64_decode(string) {
            Ok(v) => v,
            Err(e) => {
                return Err(e);
            },
        };
        if id_vec.len() != 18 {
            Err(Error::Parsing { from: string.to_owned(), to: "PeerId".to_owned() })
        } else {
            let mut id = [0u8; 18];
            let mut i: usize = 0;
            while i < 18
                invariant
                    i <= 18,
                    id_vec@.len() == 18,
                    forall|j: int| 0 <= j < i ==> id@[j] == id_vec@[j],
                decreases 18 - i,
            {
                id[i] = id_vec[i];
                i = i + 1;
            }
            assert(id@ =~= id_vec@);
            Ok(PeerId(id))
        }
    }

    /// The URL-safe base64 text of the ID.
    pub fn to_string(&self) -> (s: String)
        ensures
            s@ == peer_id_text(self@),
            s@.len() == 24,
            encode_utf8(s@).len() == 24,
            forall|i: int| 0 <= i < s@.len() ==> is_url_safe_char(#[trigger] s@[i]),
    {
        base64_encode(&self.0)
    }
}

impl PartialEq for PeerId {
    fn eq(&self, other: &Self) -> (r: bool) {
        let mut i: usize = 0;
        while i < 18
            invariant
                i <= 18,
                forall|j: int| 0 <= j < i ==> self@[j] == other@[j],
            decreases 18 - i,
        {
            if self.0[i] != other.0[i] {
                return false;
            }
            i = i + 1;
        }
        assert(self@ =~= other@);
        true
    }
}

impl PartialEqSpecImpl for PeerId {
    open spec fn obeys_eq_spec() -> bool {
        true
    }

    open spec fn eq_spec(&self, other: &PeerId) -> bool {
        self@ == other@
    }
}

impl Eq for PeerId {

}

impl From<[u8; 18]> for PeerId {
    fn from(bytes: [u8; 18]) -> (id: PeerId) {
        PeerId(bytes)
    }
}

impl FromSpecImpl<[u8; 18]> for PeerId {
    open spec fn obeys_from_spec() -> bool {
        true
    }

    open spec fn from_spec(bytes: [u8; 18]) -> PeerId {
        PeerId(bytes)
    }
}

impl From<PeerId> for [u8; 18] {
    fn from(id: PeerId) -> (bytes: [u8; 18]) {
        id.0
    }
}

impl FromSpecImpl<PeerId> for [u8; 18] {
    open spec fn obeys_from_spec() -> bool {
        true
    }

    open spec fn from_spec(id: PeerId) -> [u8; 18] {
        id.0
    }
}

impl core::str::FromStr for PeerId {
    type Err = Error;

    fn from_str(string: &str) -> (r: Result<PeerId, Error>)
        ensures
            string.spec_bytes().len() <= usize::MAX - 3 ==> result_is(r, peer_id_parse(string@)),
            string.spec_bytes().len() > usize::MAX - 3 ==> (r matches Err(e) && e@
                == ErrorView::Base64Decode { string: string@ }),
            forall|b: Seq<u8>|
                #![trigger base64_url_encoding(b)]
                string@ == base64_url_encoding(b) && b.len() == 18 && string.spec_bytes().len()
                    <= usize::MAX - 3 ==> (r matches Ok(id) && id@ == b),
    {
        // No string in memory is this long; the check keeps the length
        // computations of the decoder from overflowing.
        if string.as_bytes().len() > usize::MAX - 3 {
            return Err(Error::Base64Decode { string: string.to_owned() });
        }
        PeerId::from_str(string)
    }
}

} // verus!
