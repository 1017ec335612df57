//! The wire codec's decoding half: from one raw datagram to a typed request
//! frame, or a typed decode error. Layouts follow the UDP tracker protocol:
//! a 16-byte header (connection id, action, transaction id, all big-endian),
//! then per-action fields.

use vstd::prelude::*;
use crate::wire::u16_of_be;
use crate::wire::u32_of_be;
use crate::wire::u64_of_be;
use crate::wire::i32_of_be;
use crate::wire::read_u16_be;
use crate::wire::read_u32_be;
use crate::wire::read_u64_be;
use crate::wire::read_i32_be;

verus! {

/// The event field of an announce request.
#[derive(PartialEq, Eq, Structural, Debug, Clone, Copy)]
pub enum Event {
    NoEvent,
    Completed,
    Started,
    Stopped,
}

/// The event named by an announce's 32-bit event code; unknown codes read as
/// no event.
pub open spec fn event_of(n: u32) -> Event {
    if n == 1 {
        Event::Completed
    } else if n == 2 {
        Event::Started
    } else if n == 3 {
        Event::Stopped
    } else {
        Event::NoEvent
    }
}

impl Event {
    /// The event named by a 32-bit event code.
    pub fn from(n: u32) -> (r: Event)
        ensures
            r == event_of(n),
    {
        match n {
            1 => Event::Completed,
            2 => Event::Started,
            3 => Event::Stopped,
            _ => Event::NoEvent,
        }
    }
}

/// Why a datagram could not be decoded.
#[derive(PartialEq, Eq, Structural, Debug, Clone, Copy)]
pub enum DecodeError {
    /// Shorter than the 16-byte header; no transaction id can be recovered.
    TooShort,
    /// The action code names no action.
    BadAction,
    /// The length does not fit the named action's layout.
    WrongLength,
}

/// A decoded request.
#[derive(Debug, PartialEq)]
pub enum Frame {
    Connect {
        connection_id: u64,
        transaction_id: u32,
    },
    Announce {
        connection_id: u64,
        transaction_id: u32,
        /// 20 raw bytes, never text.
        info_hash: Vec<u8>,
        /// 20 raw bytes, never text.
        peer_id: Vec<u8>,
        downloaded: u64,
        left: u64,
        uploaded: u64,
        event: Event,
        /// 0 means: use the datagram's source address.
        ip_address: u32,
        key: u32,
        /// Negative means: let the server choose how many peers to return.
        num_want: i32,
        port: u16,
    },
    Scrape {
        connection_id: u64,
        transaction_id: u32,
        /// Each 20 raw bytes, in request order.
        info_hashes: Vec<Vec<u8>>,
    },
}

/// The mathematical shape of a decoded request: byte vectors as sequences.
pub enum FrameModel {
    Connect {
        connection_id: u64,
        transaction_id: u32,
    },
    Announce {
        connection_id: u64,
        transaction_id: u32,
        info_hash: Seq<u8>,
        peer_id: Seq<u8>,
        downloaded: u64,
        left: u64,
        uploaded: u64,
        event: Event,
        ip_address: u32,
        key: u32,
        num_want: i32,
        port: u16,
    },
    Scrape {
        connection_id: u64,
        transaction_id: u32,
        info_hashes: Seq<Seq<u8>>,
    },
}

impl View for Frame {
    type V = FrameModel;

    open spec fn view(&self) -> FrameModel {
        match self {
            Frame::Connect { connection_id, transaction_id } => FrameModel::Connect {
                connection_id: *connection_id,
                transaction_id: *transaction_id,
            },
            Frame::Announce {
                connection_id,
                transaction_id,
                info_hash,
                peer_id,
                downloaded,
                left,
                uploaded,
                event,
                ip_address,
                key,
                num_want,
                port,
            } => FrameModel::Announce {
                connection_id: *connection_id,
                transaction_id: *transaction_id,
                info_hash: info_hash@,
                peer_id: peer_id@,
                downloaded: *downloaded,
                left: *left,
                uploaded: *uploaded,
                event: *event,
                ip_address: *ip_address,
                key: *key,
                num_want: *num_want,
                port: *port,
            },
            Frame::Scrape { connection_id, transaction_id, info_hashes } => FrameModel::Scrape {
                connection_id: *connection_id,
                transaction_id: *transaction_id,
                info_hashes: Seq::new(info_hashes@.len(), |i: int| info_hashes@[i]@),
            },
        }
    }
}

/// What decoding a byte sequence must yield, for every byte sequence: the
/// exact request fields on a well-formed datagram, and which error otherwise.
pub open spec fn decode_spec(s: Seq<u8>) -> Result<FrameModel, DecodeError> {
    if s.len() < 16 {
        Err(DecodeError::TooShort)
    } else {
        let connection_id = u64_of_be(s.subrange(0, 8));
        let code = u32_of_be(s.subrange(8, 12));
        let transaction_id = u32_of_be(s.subrange(12, 16));
        if code == 0 {
            if s.len() == 16 {
                Ok(FrameModel::Connect { connection_id, transaction_id })
            } else {
                Err(DecodeError::WrongLength)
            }
        } else if code == 1 {
            if s.len() == 98 {
                Ok(FrameModel::Announce {
                    connection_id,
                    transaction_id,
                    info_hash: s.subrange(16, 36),
                    peer_id: s.subrange(36, 56),
                    downloaded: u64_of_be(s.subrange(56, 64)),
                    left: u64_of_be(s.subrange(64, 72)),
                    uploaded: u64_of_be(s.subrange(72, 80)),
                    event: event_of(u32_of_be(s.subrange(80, 84))),
                    ip_address: u32_of_be(s.subrange(84, 88)),
                    key: u32_of_be(s.subrange(88, 92)),
                    num_want: i32_of_be(s.subrange(92, 96)),
                    port: u16_of_be(s.subrange(96, 98)),
                })
            } else {
                Err(DecodeError::WrongLength)
            }
        } else if code == 2 {
            if s.len() >= 36 && (s.len() - 16) % 20 == 0 && (s.len() - 16) / 20
                <= crate::MAX_SCRAPE_HASHES {
                Ok(FrameModel::Scrape {
                    connection_id,
                    transaction_id,
                    info_hashes: Seq::new(
                        ((s.len() - 16) / 20) as nat,
                        |k: int| s.subrange(16 + 20 * k, 36 + 20 * k),
                    ),
                })
            } else {
                Err(DecodeError::WrongLength)
            }
        } else {
            Err(DecodeError::BadAction)
        }
    }
}

/// The decode result seen mathematically: the frame replaced by its model.
pub open spec fn decoded(r: Result<Frame, DecodeError>) -> Result<FrameModel, DecodeError> {
    match r {
        Ok(f) => Ok(f@),
        Err(e) => Err(e),
    }
}

/// Copies `len` bytes starting at `off` into a fresh vector.
fn copy_range(b: &Vec<u8>, off: usize, len: usize) -> (r: Vec<u8>)
    requires
        off + len <= b.len(),
    ensures
        r@ == b@.subrange(off as int, off as int + len as int),
{
    let mut r: Vec<u8> = Vec::new();
    let mut i: usize = 0;
    while i < len
        invariant
            off + len <= b.len(),
            i <= len,
            r@ == b@.subrange(off as int, off as int + i as int),
        decreases len - i,
    {
        r.push(b[off + i]);
        proof {
            assert(r@ =~= b@.subrange(off as int, off as int + i as int + 1));
        }
        i = i + 1;
    }
    r
}

/// Holds one datagram's bytes for decoding.
pub struct Parser {
    /// The bytes of the datagram.
    buf: Vec<u8>,
}

impl View for Parser {
    type V = Seq<u8>;

    closed spec fn view(&self) -> Seq<u8> {
        self.buf@
    }
}

impl Parser {
    /// Wraps one datagram's bytes.
    pub fn new(buf: Vec<u8>) -> (p: Parser)
        ensures
            p@ == buf@,
    {
        Parser { buf }
    }

    /// Decodes the datagram: every input yields either the typed request the
    /// layout defines, or the decode error it defines — never a panic. Any
    /// input shorter than the 16-byte header is rejected as too short.
    pub fn parse(&self) -> (r: Result<Frame, DecodeError>)
        ensures
            decoded(r) == decode_spec(self@),
            self@.len() < 16 ==> r == Err::<Frame, DecodeError>(DecodeError::TooShort),
    {
        let n = self.buf.len();
        if n < 16 {
            return Err(DecodeError::TooShort);
        }
        let connection_id = read_u64_be(&self.buf, 0);
        let code = read_u32_be(&self.buf, 8);
        let transaction_id = read_u32_be(&self.buf, 12);
        if code == 0 {
            if n != 16 {
                return Err(DecodeError::WrongLength);
            }
            Ok(Frame::Connect { connection_id, transaction_id })
        } else if code == 1 {
            if n != 98 {
                return Err(DecodeError::WrongLength);
            }
            Ok(Frame::Announce {
                connection_id,
                transaction_id,
                info_hash: copy_range(&self.buf, 16, 20),
                peer_id: copy_range(&self.buf, 36, 20),
                downloaded: read_u64_be(&self.buf, 56),
                left: read_u64_be(&self.buf, 64),
                uploaded: read_u64_be(&self.buf, 72),
                event: Event::from(read_u32_be(&self.buf, 80)),
                ip_address: read_u32_be(&self.buf, 84),
                key: read_u32_be(&self.buf, 88),
                num_want: read_i32_be(&self.buf, 92),
                port: read_u16_be(&self.buf, 96),
            })
        } else if code == 2 {
            if n < 36 || (n - 16) % 20 != 0 || (n - 16) / 20 > (crate::MAX_SCRAPE_HASHES as usize) {
                return Err(DecodeError::WrongLength);
            }
            let k = (n - 16) / 20;
            let mut info_hashes: Vec<Vec<u8>> = Vec::new();
            let mut i: usize = 0;
            while i < k
                invariant
                    n == self.buf.len(),
                    36 <= n,
                    k == (n - 16) / 20,
                    (n - 16) % 20 == 0,
                    k <= 74,
                    i <= k,
                    info_hashes@.len() == i,
                    forall|j: int|
                        0 <= j < i ==> #[trigger] info_hashes@[j]@ == self.buf@.subrange(
                            16 + 20 * j,
                            36 + 20 * j,
                        ),
                decreases k - i,
            {
                assert(16 + 20 * (i as int) + 20 <= n);
                let h = copy_range(&self.buf, 16 + 20 * i, 20);
                info_hashes.push(h);
                i = i + 1;
            }
            let frame = Frame::Scrape { connection_id, transaction_id, info_hashes };
            proof {
                assert(Seq::new(info_hashes@.len(), |j: int| info_hashes@[j]@) =~~= Seq::new(
                    ((self@.len() - 16) / 20) as nat,
                    |j: int| self@.subrange(16 + 20 * j, 36 + 20 * j),
                ));
            }
            Ok(frame)
        } else {
            Err(DecodeError::BadAction)
        }
    }
}

} // verus!
