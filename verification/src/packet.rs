//! The application-level envelope carried as opaque payload inside a mesh
//! message, with its byte-exact codec and round-trip law.
use vstd::prelude::*;

verus! {

use vstd::utf8::encode_utf8;
use crate::codec::{enc_u64, enc_bytes, enc_str, enc_opt_str, enc_opt_bytes, sdec_u64, sdec_bytes,
    sdec_str, sdec_opt_str, sdec_opt_bytes, i64_as_u64, u64_as_i64, write_u64, write_bytes,
    write_str, write_opt_str, write_opt_bytes, read_u64, read_bytes, read_str, read_opt_str,
    read_opt_bytes, lemma_sdec_u64_at, lemma_sdec_bytes_at, lemma_sdec_str_at,
    lemma_sdec_opt_str_at, lemma_sdec_opt_bytes_at, lemma_concat_sub, lemma_i64_u64_round_trip,
    i64_to_u64, u64_to_i64};
use crate::error::MeshError;
use crate::protocol::{opt_str_view, opt_bytes_view, str_wf, opt_str_wf, bytes_wf, opt_bytes_wf};
use crate::routing::spec_ely_url;
use crate::util::now_unix;

/// Application-level packet: source, optional `ely://` destination, raw
/// payload, creation time, and an optional signature (not yet validated).
#[derive(Debug, Clone, PartialEq, Eq)]
pub struct ElysiumPacket {
    pub src: String,
    /// Destination address in the form `ely://<node_id>`; absent means
    /// broadcast.
    pub dst: Option<String>,
    /// Raw payload bytes, UTF-8 text or binary.
    pub payload: Vec<u8>,
    pub timestamp: i64,
    pub signature: Option<Vec<u8>>,
}

/// The mathematical shape of a packet.
pub ghost struct ElysiumPacketView {
    pub src: Seq<char>,
    pub dst: Option<Seq<char>>,
    pub payload: Seq<u8>,
    pub timestamp: i64,
    pub signature: Option<Seq<u8>>,
}

impl View for ElysiumPacket {
    type V = ElysiumPacketView;

    open spec fn view(&self) -> ElysiumPacketView {
        ElysiumPacketView {
            src: self.src@,
            dst: opt_str_view(self.dst),
            payload: self.payload@,
            timestamp: self.timestamp,
            signature: opt_str_view_bytes(self.signature),
        }
    }
}

pub open spec fn opt_str_view_bytes(o: Option<Vec<u8>>) -> Option<Seq<u8>> {
    opt_bytes_view(o)
}

impl ElysiumPacket {
    /// Create a packet stamped with the current time; a destination node id
    /// is wrapped in the `ely://` form.
    pub fn new(src: String, dst_node_id: Option<String>, payload: Vec<u8>) -> (r: ElysiumPacket)
        ensures
            r@.src == src@,
            r@.dst == (match dst_node_id {
                Some(id) => Some(spec_ely_url(id@)),
                None => None::<Seq<char>>,
            }),
            r@.payload == payload@,
            r@.signature is None,
    {
        let dst = match dst_node_id {
            Some(id) => Some(String::from_str("ely://").concat(id.as_str())),
            None => None,
        };
        ElysiumPacket { src, dst, payload, timestamp: now_unix(), signature: None }
    }

    /// The node id inside the destination, when the destination is present
    /// and carries the `ely://` prefix.
    pub fn dst_node_id(&self) -> (r: Option<&str>)
        ensures
            r == (match self@.dst {
                None => None::<&str>,
                Some(d) => r,
            }),
            self@.dst is None ==> r is None,
            r is Some ==> self@.dst is Some && self@.dst->0.len() >= 6 && self@.dst->0.subrange(
                0,
                6,
            ) == "ely://"@ && r->0@ == self@.dst->0.subrange(6, self@.dst->0.len() as int),
            (self@.dst matches Some(d) && d.len() >= 6 && d.subrange(0, 6) == "ely://"@) ==> r
                is Some,
    {
        proof {
            reveal_strlit("ely://");
        }
        match &self.dst {
            None => None,
            Some(d) => {
                let n = d.as_str().unicode_len();
                let ds = d.as_str();
                if n >= 6 && ds.get_char(0) == 'e' && ds.get_char(1) == 'l' && ds.get_char(2)
                    == 'y' && ds.get_char(3) == ':' && ds.get_char(4) == '/' && ds.get_char(5)
                    == '/' {
                    proof {
                        assert(d@.subrange(0, 6) =~= "ely://"@);
                    }
                    Some(ds.substring_char(6, n))
                } else {
                    proof {
                        if d@.len() >= 6 && d@.subrange(0, 6) == "ely://"@ {
                            assert(d@.subrange(0, 6)[0] == d@[0]);
                            assert(d@.subrange(0, 6)[1] == d@[1]);
                            assert(d@.subrange(0, 6)[2] == d@[2]);
                            assert(d@.subrange(0, 6)[3] == d@[3]);
                            assert(d@.subrange(0, 6)[4] == d@[4]);
                            assert(d@.subrange(0, 6)[5] == d@[5]);
                        }
                    }
                    None
                }
            },
        }
    }

    /// Serialize this packet; the bytes are exactly `enc_packet(self@)`.
    pub fn to_bytes(&self) -> (r: Result<Vec<u8>, MeshError>)
        ensures
            r is Ok,
            r matches Ok(v) ==> v@ == enc_packet(self@),
    {
        let mut out: Vec<u8> = Vec::new();
        write_str(&mut out, self.src.as_str());
        write_opt_str(&mut out, &self.dst);
        write_bytes(&mut out, self.payload.as_slice());
        write_u64(&mut out, i64_to_u64(self.timestamp));
        write_opt_bytes(&mut out, &self.signature);
        proof {
            assert(out@ =~= enc_packet(self@));
        }
        Ok(out)
    }

    /// Parse a packet; the outcome is the deterministic whole-buffer parse
    /// of the input.
    pub fn from_bytes(bytes: &[u8]) -> (r: Result<ElysiumPacket, MeshError>)
        ensures
            r matches Ok(p) ==> sdec_packet_full(bytes@) == Some(p@),
            r is Err ==> sdec_packet_full(bytes@) is None,
            r matches Err(e) ==> e is Serialization,
    {
        let err: MeshError = MeshError::Serialization(String::from_str("invalid packet"));
        let (src, i1) = match read_str(bytes, 0) {
            None => { return Err(err); },
            Some(p) => p,
        };
        let (dst, i2) = match read_opt_str(bytes, i1) {
            None => { return Err(err); },
            Some(p) => p,
        };
        let (payload, i3) = match read_bytes(bytes, i2) {
            None => { return Err(err); },
            Some(p) => p,
        };
        let (ts, i4) = match read_u64(bytes, i3) {
            None => { return Err(err); },
            Some(p) => p,
        };
        let (signature, i5) = match read_opt_bytes(bytes, i4) {
            None => { return Err(err); },
            Some(p) => p,
        };
        if i5 != bytes.len() {
            return Err(err);
        }
        Ok(ElysiumPacket { src, dst, payload, timestamp: u64_to_i64(ts), signature })
    }
}

/// The byte-exact encoding of a packet.
pub open spec fn enc_packet(v: ElysiumPacketView) -> Seq<u8> {
    enc_str(v.src) + enc_opt_str(v.dst) + enc_bytes(v.payload) + enc_u64(i64_as_u64(v.timestamp))
        + enc_opt_bytes(v.signature)
}

/// The deterministic parse of a packet.
pub open spec fn sdec_packet(buf: Seq<u8>) -> Option<(ElysiumPacketView, int)> {
    match sdec_str(buf, 0) {
        None => None,
        Some((src, i1)) => match sdec_opt_str(buf, i1) {
            None => None,
            Some((dst, i2)) => match sdec_bytes(buf, i2) {
                None => None,
                Some((payload, i3)) => match sdec_u64(buf, i3) {
                    None => None,
                    Some((ts, i4)) => match sdec_opt_bytes(buf, i4) {
                        None => None,
                        Some((signature, i5)) => Some((
                            ElysiumPacketView {
                                src,
                                dst,
                                payload,
                                timestamp: u64_as_i64(ts),
                                signature,
                            },
                            i5,
                        )),
                    },
                },
            },
        },
    }
}

/// A whole-buffer parse: the packet must consume every input byte.
pub open spec fn sdec_packet_full(buf: Seq<u8>) -> Option<ElysiumPacketView> {
    match sdec_packet(buf) {
        None => None,
        Some((v, j)) => if j == buf.len() {
            Some(v)
        } else {
            None
        },
    }
}

/// Every field a machine can hold fits the coding's length prefixes.
pub open spec fn packet_wf(v: ElysiumPacketView) -> bool {
    str_wf(v.src) && opt_str_wf(v.dst) && bytes_wf(v.payload) && opt_bytes_wf(v.signature)
}

/// Encode then decode preserves all fields, for every packet.
#[verifier::rlimit(100)]
#[verifier::spinoff_prover]
pub proof fn lemma_packet_round_trip(v: ElysiumPacketView)
    requires
        packet_wf(v),
    ensures
        sdec_packet_full(enc_packet(v)) == Some(v),
{
    let buf = enc_packet(v);
    let p0 = enc_str(v.src);
    let p1 = enc_opt_str(v.dst);
    let p2 = enc_bytes(v.payload);
    let p3 = enc_u64(i64_as_u64(v.timestamp));
    let p4 = enc_opt_bytes(v.signature);
    assert(buf.subrange(0, buf.len() as int) =~= buf);
    lemma_concat_sub(buf, p0 + p1 + p2 + p3, p4, 0);
    lemma_concat_sub(buf, p0 + p1 + p2, p3, 0);
    lemma_concat_sub(buf, p0 + p1, p2, 0);
    lemma_concat_sub(buf, p0, p1, 0);
    lemma_sdec_str_at(buf, 0, v.src);
    let o1: int = p0.len() as int;
    lemma_sdec_opt_str_at(buf, o1, v.dst);
    let o2: int = o1 + p1.len();
    lemma_sdec_bytes_at(buf, o2, v.payload);
    let o3: int = o2 + p2.len();
    lemma_sdec_u64_at(buf, o3, i64_as_u64(v.timestamp));
    lemma_i64_u64_round_trip(v.timestamp);
    let o4: int = o3 + 8;
    lemma_sdec_opt_bytes_at(buf, o4, v.signature);
}

} // verus!
