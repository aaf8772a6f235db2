//! The signed transport protocol.
//!
//! A batch of `Message`s travels inside a `TransportMessage` (the envelope):
//! the canonical encoding of the batch, an Ed25519 signature over those bytes
//! together with the signer's exported public key, a random freshness
//! identifier, the publisher label, and the list of replica identities that
//! have relayed the envelope. Opening an envelope verifies the signature
//! against the raw bytes first and parses them only on success: a single
//! altered byte invalidates the whole batch before any message is looked at.

use crate::codec::{dec_bytes, dec_chars, dec_map_field, dec_u16, dec_u64, dec_value,
    decode_byte_str, decode_map_field, decode_str, decode_u16, decode_u64, decode_value,
    enc_bytes, enc_chars, enc_map_field, enc_u16, enc_u64, enc_value, encode_byte_str,
    encode_map_field, encode_str, encode_u16, encode_u64, encode_value, lemma_dec_bytes_enc,
    lemma_dec_chars_enc, lemma_dec_map_field_enc, lemma_dec_u16_enc, lemma_dec_u64_enc,
    lemma_dec_value_enc, lemma_split2, vv_bounded};
use crate::crypto::{is_vkey, sig_of, verify_of, vkey_of, CryptoError, KeyPair, PublicKey,
    random_bytes};
use crate::value::{map_wf, vv_wf, DbValue, ValueMap, ValueView};
use crate::wire::{bytes_list_bounded, dec_bytes_list_field, dec_peer_list_field,
    dec_str_list_field, dec_str_list_list_field, decode_bytes_list, decode_peer_list,
    decode_str_list, decode_str_list_list, enc_bytes_list_field, enc_peer_list_field,
    enc_str_list_field, enc_str_list_list_field, encode_bytes_list, encode_peer_list,
    encode_str_list, encode_str_list_list, lemma_dec_bytes_list_field_enc,
    lemma_dec_peer_list_field_enc, lemma_dec_str_list_field_enc,
    lemma_dec_str_list_list_field_enc, peer_list_bounded, str_list_bounded,
    str_list_list_bounded};
use vstd::bytes::lemma_auto_spec_u64_to_from_le_bytes;
use vstd::prelude::*;
use vstd::utf8::encode_utf8;

verus! {

/// Why an envelope could not be opened.
#[derive(Debug)]
pub enum ProtocolError {
    /// The embedded key did not import or the signature did not verify.
    Crypto(CryptoError),
    /// The signature verified but the payload is not a canonical batch.
    Schema,
}

/// Addresses a record by namespace, contract space, contract and key.
#[derive(Debug, Clone, PartialEq, Eq)]
pub struct Location {
    pub namespace: String,
    pub contract_space: String,
    pub contract: Vec<u8>,
    pub key: String,
}

pub struct LocationView {
    pub namespace: Seq<char>,
    pub contract_space: Seq<char>,
    pub contract: Seq<u8>,
    pub key: Seq<char>,
}

impl Location {
    pub open spec fn dv(self) -> LocationView {
        LocationView {
            namespace: self.namespace@,
            contract_space: self.contract_space@,
            contract: self.contract@,
            key: self.key@,
        }
    }
}

/// The closed set of protocol messages: four handshake steps and the
/// application/control messages.
#[derive(Debug, PartialEq, Eq)]
pub enum Message {
    Hello { public_key: Vec<u8> },
    WhoAreYou { data: Vec<u8>, public_key: Vec<u8> },
    ItsMe { signature: Vec<u8>, data: Vec<u8> },
    Welcome { dht_ip: String, dht_port: u16, signature: Vec<u8> },
    Insert { location: Location, incoming_data: DbValue, metadata: ValueMap, state: u64 },
    Get { location: Location, select: Vec<Vec<String>> },
    DeployContract {
        contract_payload: Vec<u8>,
        namespace: String,
        params: ValueMap,
        tags: Vec<String>,
    },
    SearchTags { namespace: String, query: Vec<String> },
    Gossip { peers: Vec<(Vec<u8>, Vec<Vec<u8>>)> },
}

pub enum MessageView {
    Hello { public_key: Seq<u8> },
    WhoAreYou { data: Seq<u8>, public_key: Seq<u8> },
    ItsMe { signature: Seq<u8>, data: Seq<u8> },
    Welcome { dht_ip: Seq<char>, dht_port: u16, signature: Seq<u8> },
    Insert {
        location: LocationView,
        incoming_data: ValueView,
        metadata: Seq<(Seq<char>, ValueView)>,
        state: u64,
    },
    Get { location: LocationView, select: Seq<Seq<Seq<char>>> },
    DeployContract {
        contract_payload: Seq<u8>,
        namespace: Seq<char>,
        params: Seq<(Seq<char>, ValueView)>,
        tags: Seq<Seq<char>>,
    },
    SearchTags { namespace: Seq<char>, query: Seq<Seq<char>> },
    Gossip { peers: Seq<(Seq<u8>, Seq<Seq<u8>>)> },
}

impl Message {
    pub open spec fn dv(self) -> MessageView {
        match self {
            Message::Hello { public_key } => MessageView::Hello { public_key: public_key@ },
            Message::WhoAreYou { data, public_key } => MessageView::WhoAreYou {
                data: data@,
                public_key: public_key@,
            },
            Message::ItsMe { signature, data } => MessageView::ItsMe {
                signature: signature@,
                data: data@,
            },
            Message::Welcome { dht_ip, dht_port, signature } => MessageView::Welcome {
                dht_ip: dht_ip@,
                dht_port,
                signature: signature@,
            },
            Message::Insert { location, incoming_data, metadata, state } => MessageView::Insert {
                location: location.dv(),
                incoming_data: incoming_data.dv(),
                metadata: metadata.dv(),
                state,
            },
            Message::Get { location, select } => MessageView::Get {
                location: location.dv(),
                select: select.deep_view(),
            },
            Message::DeployContract { contract_payload, namespace, params, tags } =>
                MessageView::DeployContract {
                contract_payload: contract_payload@,
                namespace: namespace@,
                params: params.dv(),
                tags: tags.deep_view(),
            },
            Message::SearchTags { namespace, query } => MessageView::SearchTags {
                namespace: namespace@,
                query: query.deep_view(),
            },
            Message::Gossip { peers } => MessageView::Gossip { peers: peers.deep_view() },
        }
    }

    /// Values and mappings the message carries are well formed.
    pub open spec fn wf(self) -> bool {
        msg_wf(self.dv())
    }

    /// Signs this single message as a one-element batch.
    pub fn sign(&self, key: &KeyPair, publisher: String) -> (r: TransportMessage)
        requires
            key.wf(),
            self.wf(),
        ensures
            r.data@ == enc_messages(seq![self.dv()]),
            r.signature.signed_by@ == key.export_public_spec(),
            r.signature.data@ == sig_of(key.signing@, r.data@),
            r.key_ok(),
            r.sig_ok(),
            r.publisher@ == publisher@,
            r.received_by.deep_view() =~= Seq::<Seq<u8>>::empty(),
            r.id@.len() == 64,
    {
        let mut data: Vec<u8> = Vec::new();
        encode_u64(1, &mut data);
        encode_message(self, &mut data);
        proof {
            let one = seq![self.dv()];
            assert(one.drop_last() =~= Seq::<MessageView>::empty());
            assert(one.last() == self.dv());
            assert(enc_message_list(Seq::<MessageView>::empty()) =~= Seq::<u8>::empty());
            assert(enc_message_list(one) =~= Seq::<u8>::empty() + enc_message(self.dv()));
            assert(data@ =~= enc_messages(one));
        }
        let sig = key.sign(data.as_slice());
        let signed_by = key.export_public();
        let r = TransportMessage {
            data,
            signature: MessageSignature { data: sig, signed_by },
            publisher,
            received_by: Vec::new(),
            id: random_bytes(64),
        };
        proof {
            assert(r.received_by.deep_view() =~= Seq::<Seq<u8>>::empty());
            assert(r.signature.signed_by@.subrange(0, 32) =~= vkey_of(key.signing@));
            assert(r.signature.signed_by@.subrange(32, 64) =~= vkey_of(key.encrypting@));
        }
        r
    }
}

pub open spec fn msg_wf(m: MessageView) -> bool {
    match m {
        MessageView::Insert { incoming_data, metadata, .. } => vv_wf(incoming_data) && map_wf(
            metadata,
        ),
        MessageView::DeployContract { params, .. } => map_wf(params),
        _ => true,
    }
}

/// All counts and lengths in the message fit their 8-byte prefixes.
pub open spec fn msg_bounded(m: MessageView) -> bool {
    match m {
        MessageView::Hello { public_key } => public_key.len() < 0x1_0000_0000_0000_0000,
        MessageView::WhoAreYou { data, public_key } => data.len() < 0x1_0000_0000_0000_0000
            && public_key.len() < 0x1_0000_0000_0000_0000,
        MessageView::ItsMe { signature, data } => signature.len() < 0x1_0000_0000_0000_0000
            && data.len() < 0x1_0000_0000_0000_0000,
        MessageView::Welcome { dht_ip, signature, .. } => encode_utf8(dht_ip).len()
            < 0x1_0000_0000_0000_0000 && signature.len() < 0x1_0000_0000_0000_0000,
        MessageView::Insert { location, incoming_data, metadata, .. } => loc_bounded(location)
            && vv_bounded(incoming_data) && vv_bounded(ValueView::Obj(metadata)),
        MessageView::Get { location, select } => loc_bounded(location) && str_list_list_bounded(
            select,
        ),
        MessageView::DeployContract { contract_payload, namespace, params, tags } =>
            contract_payload.len() < 0x1_0000_0000_0000_0000 && encode_utf8(namespace).len()
            < 0x1_0000_0000_0000_0000 && vv_bounded(ValueView::Obj(params)) && str_list_bounded(
            tags,
        ),
        MessageView::SearchTags { namespace, query } => encode_utf8(namespace).len()
            < 0x1_0000_0000_0000_0000 && str_list_bounded(query),
        MessageView::Gossip { peers } => peer_list_bounded(peers),
    }
}

pub open spec fn loc_bounded(l: LocationView) -> bool {
    &&& encode_utf8(l.namespace).len() < 0x1_0000_0000_0000_0000
    &&& encode_utf8(l.contract_space).len() < 0x1_0000_0000_0000_0000
    &&& l.contract.len() < 0x1_0000_0000_0000_0000
    &&& encode_utf8(l.key).len() < 0x1_0000_0000_0000_0000
}

// -------------------------------------------------------------- encoding

pub const MSG_HELLO: u8 = 1;
pub const MSG_WHO_ARE_YOU: u8 = 2;
pub const MSG_ITS_ME: u8 = 3;
pub const MSG_WELCOME: u8 = 4;
pub const MSG_INSERT: u8 = 5;
pub const MSG_GET: u8 = 6;
pub const MSG_DEPLOY_CONTRACT: u8 = 7;
pub const MSG_SEARCH_TAGS: u8 = 8;
pub const MSG_GOSSIP: u8 = 9;

pub open spec fn enc_location(l: LocationView) -> Seq<u8> {
    enc_chars(l.namespace) + enc_chars(l.contract_space) + enc_bytes(l.contract) + enc_chars(l.key)
}

pub open spec fn enc_message(m: MessageView) -> Seq<u8> {
    match m {
        MessageView::Hello { public_key } => seq![MSG_HELLO] + enc_bytes(public_key),
        MessageView::WhoAreYou { data, public_key } => seq![MSG_WHO_ARE_YOU] + enc_bytes(data)
            + enc_bytes(public_key),
        MessageView::ItsMe { signature, data } => seq![MSG_ITS_ME] + enc_bytes(signature)
            + enc_bytes(data),
        MessageView::Welcome { dht_ip, dht_port, signature } => seq![MSG_WELCOME] + enc_chars(
            dht_ip,
        ) + enc_u16(dht_port) + enc_bytes(signature),
        MessageView::Insert { location, incoming_data, metadata, state } => seq![MSG_INSERT]
            + enc_location(location) + enc_value(incoming_data) + enc_map_field(metadata)
            + enc_u64(state),
        MessageView::Get { location, select } => seq![MSG_GET] + enc_location(location)
            + enc_str_list_list_field(select),
        MessageView::DeployContract { contract_payload, namespace, params, tags } => seq![
            MSG_DEPLOY_CONTRACT,
        ] + enc_bytes(contract_payload) + enc_chars(namespace) + enc_map_field(params)
            + enc_str_list_field(tags),
        MessageView::SearchTags { namespace, query } => seq![MSG_SEARCH_TAGS] + enc_chars(
            namespace,
        ) + enc_str_list_field(query),
        MessageView::Gossip { peers } => seq![MSG_GOSSIP] + enc_peer_list_field(peers),
    }
}

pub open spec fn enc_message_list(ms: Seq<MessageView>) -> Seq<u8>
    decreases ms.len(),
{
    if ms.len() == 0 {
        Seq::empty()
    } else {
        enc_message_list(ms.drop_last()) + enc_message(ms.last())
    }
}

/// A batch of messages: count, then the messages in order.
pub open spec fn enc_messages(ms: Seq<MessageView>) -> Seq<u8> {
    enc_u64(ms.len() as u64) + enc_message_list(ms)
}

/// Deep views of a concrete batch.
pub open spec fn msgs_dv(ms: Seq<Message>) -> Seq<MessageView> {
    Seq::new(ms.len(), |i: int| ms[i].dv())
}

pub fn encode_location(l: &Location, out: &mut Vec<u8>)
    ensures
        final(out)@ == old(out)@ + enc_location(l.dv()),
{
    encode_str(l.namespace.as_str(), out);
    encode_str(l.contract_space.as_str(), out);
    encode_byte_str(&l.contract, out);
    encode_str(l.key.as_str(), out);
    proof {
        assert(old(out)@ + enc_chars(l.namespace@) + enc_chars(l.contract_space@) + enc_bytes(
            l.contract@,
        ) + enc_chars(l.key@) =~= old(out)@ + enc_location(l.dv()));
    }
}

pub fn encode_message(m: &Message, out: &mut Vec<u8>)
    ensures
        final(out)@ == old(out)@ + enc_message(m.dv()),
{
    match m {
        Message::Hello { public_key } => {
            out.push(MSG_HELLO);
            encode_byte_str(public_key, out);
            proof {
                assert(old(out)@.push(MSG_HELLO) + enc_bytes(public_key@) =~= old(out)@
                    + enc_message(m.dv()));
            }
        },
        Message::WhoAreYou { data, public_key } => {
            out.push(MSG_WHO_ARE_YOU);
            encode_byte_str(data, out);
            encode_byte_str(public_key, out);
            proof {
                assert(old(out)@.push(MSG_WHO_ARE_YOU) + enc_bytes(data@) + enc_bytes(public_key@)
                    =~= old(out)@ + enc_message(m.dv()));
            }
        },
        Message::ItsMe { signature, data } => {
            out.push(MSG_ITS_ME);
            encode_byte_str(signature, out);
            encode_byte_str(data, out);
            proof {
                assert(old(out)@.push(MSG_ITS_ME) + enc_bytes(signature@) + enc_bytes(data@)
                    =~= old(out)@ + enc_message(m.dv()));
            }
        },
        Message::Welcome { dht_ip, dht_port, signature } => {
            out.push(MSG_WELCOME);
            encode_str(dht_ip.as_str(), out);
            encode_u16(*dht_port, out);
            encode_byte_str(signature, out);
            proof {
                assert(old(out)@.push(MSG_WELCOME) + enc_chars(dht_ip@) + enc_u16(*dht_port)
                    + enc_bytes(signature@) =~= old(out)@ + enc_message(m.dv()));
            }
        },
        Message::Insert { location, incoming_data, metadata, state } => {
            out.push(MSG_INSERT);
            encode_location(location, out);
            encode_value(incoming_data, out);
            encode_map_field(metadata, out);
            encode_u64(*state, out);
            proof {
                assert(old(out)@.push(MSG_INSERT) + enc_location(location.dv()) + enc_value(
                    incoming_data.dv(),
                ) + enc_map_field(metadata.dv()) + enc_u64(*state) =~= old(out)@ + enc_message(
                    m.dv(),
                ));
            }
        },
        Message::Get { location, select } => {
            out.push(MSG_GET);
            encode_location(location, out);
            encode_str_list_list(select, out);
            proof {
                assert(old(out)@.push(MSG_GET) + enc_location(location.dv())
                    + enc_str_list_list_field(select.deep_view()) =~= old(out)@ + enc_message(
                    m.dv(),
                ));
            }
        },
        Message::DeployContract { contract_payload, namespace, params, tags } => {
            out.push(MSG_DEPLOY_CONTRACT);
            encode_byte_str(contract_payload, out);
            encode_str(namespace.as_str(), out);
            encode_map_field(params, out);
            encode_str_list(tags, out);
            proof {
                assert(old(out)@.push(MSG_DEPLOY_CONTRACT) + enc_bytes(contract_payload@)
                    + enc_chars(namespace@) + enc_map_field(params.dv()) + enc_str_list_field(
                    tags.deep_view(),
                ) =~= old(out)@ + enc_message(m.dv()));
            }
        },
        Message::SearchTags { namespace, query } => {
            out.push(MSG_SEARCH_TAGS);
            encode_str(namespace.as_str(), out);
            encode_str_list(query, out);
            proof {
                assert(old(out)@.push(MSG_SEARCH_TAGS) + enc_chars(namespace@)
                    + enc_str_list_field(query.deep_view()) =~= old(out)@ + enc_message(m.dv()));
            }
        },
        Message::Gossip { peers } => {
            out.push(MSG_GOSSIP);
            encode_peer_list(peers, out);
            proof {
                assert(old(out)@.push(MSG_GOSSIP) + enc_peer_list_field(peers.deep_view()) =~= old(
                    out,
                )@ + enc_message(m.dv()));
            }
        },
    }
}

/// Encodes a whole batch: count, then each message.
pub fn encode_messages(ms: &Vec<Message>) -> (r: Vec<u8>)
    ensures
        r@ == enc_messages(msgs_dv(ms@)),
{
    let mut out: Vec<u8> = Vec::new();
    encode_u64(ms.len() as u64, &mut out);
    let n = ms.len();
    let mut i: usize = 0;
    while i < n
        invariant
            n == ms@.len(),
            i <= n,
            out@ == enc_u64(ms@.len() as u64) + enc_message_list(msgs_dv(ms@).subrange(0, i as int)),
        decreases n - i,
    {
        encode_message(&ms[i], &mut out);
        proof {
            let pre = msgs_dv(ms@).subrange(0, i as int);
            let cur = msgs_dv(ms@).subrange(0, i + 1 as int);
            assert(cur.drop_last() =~= pre);
            assert(cur.last() == msgs_dv(ms@)[i as int]);
            assert(enc_u64(ms@.len() as u64) + enc_message_list(pre) + enc_message(
                ms@[i as int].dv(),
            ) =~= enc_u64(ms@.len() as u64) + enc_message_list(cur));
        }
        i = i + 1;
    }
    proof {
        assert(msgs_dv(ms@).subrange(0, n as int) =~= msgs_dv(ms@));
    }
    out
}


// -------------------------------------------------------------- decoding

pub open spec fn dec_location(s: Seq<u8>, i: int) -> Option<(LocationView, int)> {
    match dec_chars(s, i) {
        Option::Some((namespace, j1)) => match dec_chars(s, j1) {
            Option::Some((contract_space, j2)) => match dec_bytes(s, j2) {
                Option::Some((contract, j3)) => match dec_chars(s, j3) {
                    Option::Some((key, j4)) => Option::Some(
                        (LocationView { namespace, contract_space, contract, key }, j4),
                    ),
                    Option::None => Option::None,
                },
                Option::None => Option::None,
            },
            Option::None => Option::None,
        },
        Option::None => Option::None,
    }
}

pub open spec fn dec_message(s: Seq<u8>, i: int) -> Option<(MessageView, int)> {
    if !(0 <= i < s.len()) {
        Option::None
    } else {
        let tag = s[i];
        if tag == MSG_HELLO {
            match dec_bytes(s, i + 1) {
                Option::Some((public_key, j)) => Option::Some(
                    (MessageView::Hello { public_key }, j),
                ),
                Option::None => Option::None,
            }
        } else if tag == MSG_WHO_ARE_YOU {
            match dec_bytes(s, i + 1) {
                Option::Some((data, j)) => match dec_bytes(s, j) {
                    Option::Some((public_key, j2)) => Option::Some(
                        (MessageView::WhoAreYou { data, public_key }, j2),
                    ),
                    Option::None => Option::None,
                },
                Option::None => Option::None,
            }
        } else if tag == MSG_ITS_ME {
            match dec_bytes(s, i + 1) {
                Option::Some((signature, j)) => match dec_bytes(s, j) {
                    Option::Some((data, j2)) => Option::Some(
                        (MessageView::ItsMe { signature, data }, j2),
                    ),
                    Option::None => Option::None,
                },
                Option::None => Option::None,
            }
        } else if tag == MSG_WELCOME {
            match dec_chars(s, i + 1) {
                Option::Some((dht_ip, j)) => match dec_u16(s, j) {
                    Option::Some((dht_port, j2)) => match dec_bytes(s, j2) {
                        Option::Some((signature, j3)) => Option::Some(
                            (MessageView::Welcome { dht_ip, dht_port, signature }, j3),
                        ),
                        Option::None => Option::None,
                    },
                    Option::None => Option::None,
                },
                Option::None => Option::None,
            }
        } else if tag == MSG_INSERT {
            match dec_location(s, i + 1) {
                Option::Some((location, j)) => match dec_value(s, j) {
                    Option::Some((incoming_data, j2)) => match dec_map_field(s, j2) {
                        Option::Some((metadata, j3)) => match dec_u64(s, j3) {
                            Option::Some((state, j4)) => Option::Some(
                                (
                                    MessageView::Insert {
                                        location,
                                        incoming_data,
                                        metadata,
                                        state,
                                    },
                                    j4,
                                ),
                            ),
                            Option::None => Option::None,
                        },
                        Option::None => Option::None,
                    },
                    Option::None => Option::None,
                },
                Option::None => Option::None,
            }
        } else if tag == MSG_GET {
            match dec_location(s, i + 1) {
                Option::Some((location, j)) => match dec_str_list_list_field(s, j) {
                    Option::Some((select, j2)) => Option::Some(
                        (MessageView::Get { location, select }, j2),
                    ),
                    Option::None => Option::None,
                },
                Option::None => Option::None,
            }
        } else if tag == MSG_DEPLOY_CONTRACT {
            match dec_bytes(s, i + 1) {
                Option::Some((contract_payload, j)) => match dec_chars(s, j) {
                    Option::Some((namespace, j2)) => match dec_map_field(s, j2) {
                        Option::Some((params, j3)) => match dec_str_list_field(s, j3) {
                            Option::Some((tags, j4)) => Option::Some(
                                (
                                    MessageView::DeployContract {
                                        contract_payload,
                                        namespace,
                                        params,
                                        tags,
                                    },
                                    j4,
                                ),
                            ),
                            Option::None => Option::None,
                        },
                        Option::None => Option::None,
                    },
                    Option::None => Option::None,
                },
                Option::None => Option::None,
            }
        } else if tag == MSG_SEARCH_TAGS {
            match dec_chars(s, i + 1) {
                Option::Some((namespace, j)) => match dec_str_list_field(s, j) {
                    Option::Some((query, j2)) => Option::Some(
                        (MessageView::SearchTags { namespace, query }, j2),
                    ),
                    Option::None => Option::None,
                },
                Option::None => Option::None,
            }
        } else if tag == MSG_GOSSIP {
            match dec_peer_list_field(s, i + 1) {
                Option::Some((peers, j)) => Option::Some((MessageView::Gossip { peers }, j)),
                Option::None => Option::None,
            }
        } else {
            Option::None
        }
    }
}

pub open spec fn dec_message_list(s: Seq<u8>, i: int, n: int) -> Option<(Seq<MessageView>, int)>
    decreases n,
{
    if n <= 0 {
        Option::Some((Seq::empty(), i))
    } else {
        match dec_message(s, i) {
            Option::Some((m, j)) => match dec_message_list(s, j, n - 1) {
                Option::Some((rest, j2)) => Option::Some((seq![m] + rest, j2)),
                Option::None => Option::None,
            },
            Option::None => Option::None,
        }
    }
}

/// Decodes a whole payload as one batch; every byte must be consumed.
pub open spec fn dec_messages_exact(s: Seq<u8>) -> Option<Seq<MessageView>> {
    match dec_u64(s, 0) {
        Option::Some((n, j)) => match dec_message_list(s, j, n as int) {
            Option::Some((ms, j2)) => if j2 == s.len() {
                Option::Some(ms)
            } else {
                Option::None
            },
            Option::None => Option::None,
        },
        Option::None => Option::None,
    }
}

pub fn decode_location(s: &Vec<u8>, i: usize) -> (r: Option<(Location, usize)>)
    ensures
        match r {
            Option::Some(p) => dec_location(s@, i as int) == Option::Some((p.0.dv(), p.1 as int)),
            Option::None => dec_location(s@, i as int) is None,
        },
{
    let (namespace, j1) = match decode_str(s, i) {
        Option::Some(p) => p,
        Option::None => {
            return Option::None;
        },
    };
    let (contract_space, j2) = match decode_str(s, j1) {
        Option::Some(p) => p,
        Option::None => {
            return Option::None;
        },
    };
    let (contract, j3) = match decode_byte_str(s, j2) {
        Option::Some(p) => p,
        Option::None => {
            return Option::None;
        },
    };
    let (key, j4) = match decode_str(s, j3) {
        Option::Some(p) => p,
        Option::None => {
            return Option::None;
        },
    };
    Option::Some((Location { namespace, contract_space, contract, key }, j4))
}

/// Decodes one message; accepts canonical input only. Everything decoded is
/// well formed.
pub fn decode_message(s: &Vec<u8>, i: usize) -> (r: Option<(Message, usize)>)
    ensures
        match r {
            Option::Some(p) => dec_message(s@, i as int) == Option::Some((p.0.dv(), p.1 as int))
                && p.0.wf(),
            Option::None => dec_message(s@, i as int) is None,
        },
{
    if i >= s.len() {
        return Option::None;
    }
    let tag = s[i];
    if tag == MSG_HELLO {
        match decode_byte_str(s, i + 1) {
            Option::Some((public_key, j)) => Option::Some((Message::Hello { public_key }, j)),
            Option::None => Option::None,
        }
    } else if tag == MSG_WHO_ARE_YOU {
        let (data, j) = match decode_byte_str(s, i + 1) {
            Option::Some(p) => p,
            Option::None => {
                return Option::None;
            },
        };
        match decode_byte_str(s, j) {
            Option::Some((public_key, j2)) => Option::Some(
                (Message::WhoAreYou { data, public_key }, j2),
            ),
            Option::None => Option::None,
        }
    } else if tag == MSG_ITS_ME {
        let (signature, j) = match decode_byte_str(s, i + 1) {
            Option::Some(p) => p,
            Option::None => {
                return Option::None;
            },
        };
        match decode_byte_str(s, j) {
            Option::Some((data, j2)) => Option::Some((Message::ItsMe { signature, data }, j2)),
            Option::None => Option::None,
        }
    } else if tag == MSG_WELCOME {
        let (dht_ip, j) = match decode_str(s, i + 1) {
            Option::Some(p) => p,
            Option::None => {
                return Option::None;
            },
        };
        let (dht_port, j2) = match decode_u16(s, j) {
            Option::Some(p) => p,
            Option::None => {
                return Option::None;
            },
        };
        match decode_byte_str(s, j2) {
            Option::Some((signature, j3)) => Option::Some(
                (Message::Welcome { dht_ip, dht_port, signature }, j3),
            ),
            Option::None => Option::None,
        }
    } else if tag == MSG_INSERT {
        let (location, j) = match decode_location(s, i + 1) {
            Option::Some(p) => p,
            Option::None => {
                return Option::None;
            },
        };
        let (incoming_data, j2) = match decode_value(s, j) {
            Option::Some(p) => p,
            Option::None => {
                return Option::None;
            },
        };
        let (metadata, j3) = match decode_map_field(s, j2) {
            Option::Some(p) => p,
            Option::None => {
                return Option::None;
            },
        };
        match decode_u64(s, j3) {
            Option::Some((state, j4)) => Option::Some(
                (Message::Insert { location, incoming_data, metadata, state }, j4),
            ),
            Option::None => Option::None,
        }
    } else if tag == MSG_GET {
        let (location, j) = match decode_location(s, i + 1) {
            Option::Some(p) => p,
            Option::None => {
                return Option::None;
            },
        };
        match decode_str_list_list(s, j) {
            Option::Some((select, j2)) => Option::Some((Message::Get { location, select }, j2)),
            Option::None => Option::None,
        }
    } else if tag == MSG_DEPLOY_CONTRACT {
        let (contract_payload, j) = match decode_byte_str(s, i + 1) {
            Option::Some(p) => p,
            Option::None => {
                return Option::None;
            },
        };
        let (namespace, j2) = match decode_str(s, j) {
            Option::Some(p) => p,
            Option::None => {
                return Option::None;
            },
        };
        let (params, j3) = match decode_map_field(s, j2) {
            Option::Some(p) => p,
            Option::None => {
                return Option::None;
            },
        };
        match decode_str_list(s, j3) {
            Option::Some((tags, j4)) => Option::Some(
                (Message::DeployContract { contract_payload, namespace, params, tags }, j4),
            ),
            Option::None => Option::None,
        }
    } else if tag == MSG_SEARCH_TAGS {
        let (namespace, j) = match decode_str(s, i + 1) {
            Option::Some(p) => p,
            Option::None => {
                return Option::None;
            },
        };
        match decode_str_list(s, j) {
            Option::Some((query, j2)) => Option::Some(
                (Message::SearchTags { namespace, query }, j2),
            ),
            Option::None => Option::None,
        }
    } else if tag == MSG_GOSSIP {
        match decode_peer_list(s, i + 1) {
            Option::Some((peers, j)) => Option::Some((Message::Gossip { peers }, j)),
            Option::None => Option::None,
        }
    } else {
        Option::None
    }
}

/// Decodes a whole payload as one batch; trailing bytes are refused.
pub fn decode_messages(s: &Vec<u8>) -> (r: Option<Vec<Message>>)
    ensures
        match r {
            Option::Some(ms) => dec_messages_exact(s@) == Option::Some(msgs_dv(ms@)) && (forall|
                i: int,
            |
                0 <= i < ms@.len() ==> (#[trigger] ms@[i]).wf()),
            Option::None => dec_messages_exact(s@) is None,
        },
{
    let (n, j) = match decode_u64(s, 0) {
        Option::Some(p) => p,
        Option::None => {
            return Option::None;
        },
    };
    let mut acc: Vec<Message> = Vec::new();
    let mut cur: usize = j;
    let mut rem: u64 = n;
    proof {
        assert(msgs_dv(acc@) =~= Seq::<MessageView>::empty());
        match dec_message_list(s@, j as int, n as int) {
            Option::Some(p) => {
                assert(msgs_dv(acc@) + p.0 =~= p.0);
            },
            Option::None => {},
        }
    }
    loop
        invariant
            dec_u64(s@, 0) == Option::Some((n, j as int)),
            forall|k: int| 0 <= k < acc@.len() ==> (#[trigger] acc@[k]).wf(),
            match dec_message_list(s@, cur as int, rem as int) {
                Option::Some(p) => dec_message_list(s@, j as int, n as int) == Option::Some(
                    (msgs_dv(acc@) + p.0, p.1),
                ),
                Option::None => dec_message_list(s@, j as int, n as int) is None,
            },
        decreases rem,
    {
        if rem == 0 {
            proof {
                assert(msgs_dv(acc@) + Seq::<MessageView>::empty() =~= msgs_dv(acc@));
            }
            if cur == s.len() {
                return Option::Some(acc);
            } else {
                return Option::None;
            }
        }
        let b = match decode_message(s, cur) {
            Option::Some(p) => p,
            Option::None => {
                return Option::None;
            },
        };
        let (item, jb) = b;
        let ghost prev = msgs_dv(acc@);
        let ghost itemv = item.dv();
        acc.push(item);
        proof {
            assert(msgs_dv(acc@) =~= prev.push(itemv));
            match dec_message_list(s@, jb as int, rem - 1) {
                Option::Some(p) => {
                    assert(prev + (seq![itemv] + p.0) =~= prev.push(itemv) + p.0);
                },
                Option::None => {},
            }
        }
        cur = jb;
        rem = rem - 1;
    }
}


// -------------------------------------------------- decode-of-encode laws

pub proof fn lemma_dec_location_enc(s: Seq<u8>, i: int, l: LocationView)
    requires
        loc_bounded(l),
        0 <= i,
        i + enc_location(l).len() <= s.len(),
        s.subrange(i, i + enc_location(l).len()) == enc_location(l),
    ensures
        dec_location(s, i) == Option::Some((l, i + enc_location(l).len())),
{
    lemma_auto_spec_u64_to_from_le_bytes();
    let a = enc_chars(l.namespace);
    let b = enc_chars(l.contract_space);
    let c = enc_bytes(l.contract);
    let d = enc_chars(l.key);
    assert(enc_location(l) =~= a + (b + (c + d)));
    lemma_split2(s, i, a, b + (c + d));
    lemma_split2(s, i + a.len(), b, c + d);
    lemma_split2(s, i + a.len() + b.len(), c, d);
    lemma_dec_chars_enc(s, i, l.namespace);
    lemma_dec_chars_enc(s, i + a.len(), l.contract_space);
    lemma_dec_bytes_enc(s, i + a.len() + b.len(), l.contract);
    lemma_dec_chars_enc(s, i + a.len() + b.len() + c.len(), l.key);
    match dec_location(s, i) {
        Option::Some((l2, j)) => {
            assert(l2 == l);
        },
        Option::None => {},
    }
}

/// Decoding the encoding of one well-formed, bounded message yields it back.
#[verifier::spinoff_prover]
#[verifier::rlimit(100)]
pub proof fn lemma_dec_message_enc(s: Seq<u8>, i: int, m: MessageView)
    requires
        msg_wf(m),
        msg_bounded(m),
        0 <= i,
        i + enc_message(m).len() <= s.len(),
        s.subrange(i, i + enc_message(m).len()) == enc_message(m),
    ensures
        dec_message(s, i) == Option::Some((m, i + enc_message(m).len())),
{
    lemma_auto_spec_u64_to_from_le_bytes();
    let e = enc_message(m);
    assert(s[i] == e[0]);
    match m {
        MessageView::Hello { public_key } => {
            lemma_split2(s, i, seq![MSG_HELLO], enc_bytes(public_key));
            lemma_dec_bytes_enc(s, i + 1, public_key);
        },
        MessageView::WhoAreYou { data, public_key } => {
            let a = enc_bytes(data);
            let b = enc_bytes(public_key);
            assert(e =~= seq![MSG_WHO_ARE_YOU] + (a + b));
            lemma_split2(s, i, seq![MSG_WHO_ARE_YOU], a + b);
            lemma_split2(s, i + 1, a, b);
            lemma_dec_bytes_enc(s, i + 1, data);
            lemma_dec_bytes_enc(s, i + 1 + a.len(), public_key);
        },
        MessageView::ItsMe { signature, data } => {
            let a = enc_bytes(signature);
            let b = enc_bytes(data);
            assert(e =~= seq![MSG_ITS_ME] + (a + b));
            lemma_split2(s, i, seq![MSG_ITS_ME], a + b);
            lemma_split2(s, i + 1, a, b);
            lemma_dec_bytes_enc(s, i + 1, signature);
            lemma_dec_bytes_enc(s, i + 1 + a.len(), data);
        },
        MessageView::Welcome { dht_ip, dht_port, signature } => {
            let a = enc_chars(dht_ip);
            let b = enc_u16(dht_port);
            let c = enc_bytes(signature);
            vstd::bytes::lemma_auto_spec_u16_to_from_le_bytes();
            assert(e =~= seq![MSG_WELCOME] + (a + (b + c)));
            lemma_split2(s, i, seq![MSG_WELCOME], a + (b + c));
            lemma_split2(s, i + 1, a, b + c);
            lemma_split2(s, i + 1 + a.len(), b, c);
            lemma_dec_chars_enc(s, i + 1, dht_ip);
            lemma_dec_u16_enc(s, i + 1 + a.len(), dht_port);
            lemma_dec_bytes_enc(s, i + 1 + a.len() + b.len(), signature);
        },
        MessageView::Insert { location, incoming_data, metadata, state } => {
            let a = enc_location(location);
            let b = enc_value(incoming_data);
            let c = enc_map_field(metadata);
            let d = enc_u64(state);
            assert(e =~= seq![MSG_INSERT] + (a + (b + (c + d))));
            lemma_split2(s, i, seq![MSG_INSERT], a + (b + (c + d)));
            lemma_split2(s, i + 1, a, b + (c + d));
            lemma_split2(s, i + 1 + a.len(), b, c + d);
            lemma_split2(s, i + 1 + a.len() + b.len(), c, d);
            lemma_dec_location_enc(s, i + 1, location);
            lemma_dec_value_enc(s, i + 1 + a.len(), incoming_data);
            lemma_dec_map_field_enc(s, i + 1 + a.len() + b.len(), metadata);
            lemma_dec_u64_enc(s, i + 1 + a.len() + b.len() + c.len(), state);
        },
        MessageView::Get { location, select } => {
            let a = enc_location(location);
            let b = enc_str_list_list_field(select);
            assert(e =~= seq![MSG_GET] + (a + b));
            lemma_split2(s, i, seq![MSG_GET], a + b);
            lemma_split2(s, i + 1, a, b);
            lemma_dec_location_enc(s, i + 1, location);
            lemma_dec_str_list_list_field_enc(s, i + 1 + a.len(), select);
        },
        MessageView::DeployContract { contract_payload, namespace, params, tags } => {
            let a = enc_bytes(contract_payload);
            let b = enc_chars(namespace);
            let c = enc_map_field(params);
            let d = enc_str_list_field(tags);
            assert(e =~= seq![MSG_DEPLOY_CONTRACT] + (a + (b + (c + d))));
            lemma_split2(s, i, seq![MSG_DEPLOY_CONTRACT], a + (b + (c + d)));
            lemma_split2(s, i + 1, a, b + (c + d));
            lemma_split2(s, i + 1 + a.len(), b, c + d);
            lemma_split2(s, i + 1 + a.len() + b.len(), c, d);
            lemma_dec_bytes_enc(s, i + 1, contract_payload);
            lemma_dec_chars_enc(s, i + 1 + a.len(), namespace);
            lemma_dec_map_field_enc(s, i + 1 + a.len() + b.len(), params);
            lemma_dec_str_list_field_enc(s, i + 1 + a.len() + b.len() + c.len(), tags);
        },
        MessageView::SearchTags { namespace, query } => {
            let a = enc_chars(namespace);
            let b = enc_str_list_field(query);
            assert(e =~= seq![MSG_SEARCH_TAGS] + (a + b));
            lemma_split2(s, i, seq![MSG_SEARCH_TAGS], a + b);
            lemma_split2(s, i + 1, a, b);
            lemma_dec_chars_enc(s, i + 1, namespace);
            lemma_dec_str_list_field_enc(s, i + 1 + a.len(), query);
        },
        MessageView::Gossip { peers } => {
            lemma_split2(s, i, seq![MSG_GOSSIP], enc_peer_list_field(peers));
            lemma_dec_peer_list_field_enc(s, i + 1, peers);
        },
    }
}

pub proof fn lemma_dec_message_list_enc(s: Seq<u8>, i: int, ms: Seq<MessageView>)
    requires
        forall|k: int| 0 <= k < ms.len() ==> msg_wf(#[trigger] ms[k]) && msg_bounded(ms[k]),
        0 <= i,
        i + enc_message_list(ms).len() <= s.len(),
        s.subrange(i, i + enc_message_list(ms).len()) == enc_message_list(ms),
    ensures
        dec_message_list(s, i, ms.len() as int) == Option::Some(
            (ms, i + enc_message_list(ms).len()),
        ),
    decreases ms.len(),
{
    if ms.len() == 0 {
        assert(ms =~= Seq::<MessageView>::empty());
    } else {
        lemma_enc_message_list_cons(ms);
        let e0 = enc_message(ms[0]);
        let rest = ms.drop_first();
        lemma_split2(s, i, e0, enc_message_list(rest));
        lemma_dec_message_enc(s, i, ms[0]);
        assert(forall|k: int| 0 <= k < rest.len() ==> #[trigger] rest[k] == ms[k + 1]);
        lemma_dec_message_list_enc(s, i + e0.len(), rest);
        assert(seq![ms[0]] + rest =~= ms);
    }
}

pub proof fn lemma_enc_message_list_cons(ms: Seq<MessageView>)
    requires
        ms.len() > 0,
    ensures
        enc_message_list(ms) == enc_message(ms[0]) + enc_message_list(ms.drop_first()),
    decreases ms.len(),
{
    if ms.len() == 1 {
        assert(ms.drop_last() =~= Seq::empty());
        assert(ms.drop_first() =~= Seq::empty());
        assert(enc_message_list(ms) =~= enc_message(ms[0]) + enc_message_list(ms.drop_first()));
    } else {
        let dl = ms.drop_last();
        lemma_enc_message_list_cons(dl);
        assert(dl[0] == ms[0]);
        assert(ms.drop_first().drop_last() =~= dl.drop_first());
        assert(ms.drop_first().last() == ms.last());
        assert(enc_message_list(ms.drop_first()) == enc_message_list(dl.drop_first())
            + enc_message(ms.last()));
        assert(enc_message_list(ms) =~= enc_message(ms[0]) + enc_message_list(ms.drop_first()));
    }
}

/// Serializing a batch of well-formed messages and decoding the bytes yields
/// the same batch: the round trip through the canonical codec is lossless.
/// Together with the signing contracts this is the opening half of the
/// sign-then-open round trip: an envelope just signed carries exactly these
/// bytes, verifies under the embedded key, and decodes to the same batch.
pub proof fn lemma_messages_round_trip(ms: Seq<MessageView>)
    requires
        ms.len() < 0x1_0000_0000_0000_0000,
        forall|k: int| 0 <= k < ms.len() ==> msg_wf(#[trigger] ms[k]) && msg_bounded(ms[k]),
    ensures
        dec_messages_exact(enc_messages(ms)) == Option::Some(ms),
{
    lemma_auto_spec_u64_to_from_le_bytes();
    let s = enc_messages(ms);
    assert(s.subrange(0, s.len() as int) =~= s);
    lemma_split2(s, 0, enc_u64(ms.len() as u64), enc_message_list(ms));
    lemma_dec_u64_enc(s, 0, ms.len() as u64);
    lemma_dec_message_list_enc(s, 8, ms);
}

/// The sign-then-open round trip, envelope level: an envelope in the state
/// `sign` leaves it in — embedded key well formed, signature verdict
/// positive, payload the canonical encoding of a batch — decodes back to
/// exactly that batch. With `try_into_messages`'s contract this pins the
/// opening result: such an envelope opens to the batch that was signed.
pub proof fn lemma_signed_envelope_opens(tm: TransportMessage, ms: Seq<MessageView>)
    requires
        tm.key_ok(),
        tm.sig_ok(),
        tm.data@ == enc_messages(ms),
        ms.len() < 0x1_0000_0000_0000_0000,
        forall|k: int| 0 <= k < ms.len() ==> msg_wf(#[trigger] ms[k]) && msg_bounded(ms[k]),
    ensures
        dec_messages_exact(tm.data@) == Option::Some(ms),
{
    lemma_messages_round_trip(ms);
}

// --------------------------------------------------------------- envelope

/// A signature and the exported public key of its maker.
#[derive(Debug, PartialEq, Eq)]
pub struct MessageSignature {
    pub data: Vec<u8>,
    pub signed_by: Vec<u8>,
}

/// The signed transport envelope.
#[derive(Debug, PartialEq, Eq)]
pub struct TransportMessage {
    /// The canonical encoding of the message batch.
    pub data: Vec<u8>,
    /// Signature over `data`, with the signer's exported public key.
    pub signature: MessageSignature,
    /// Label of the replica that first published the envelope.
    pub publisher: String,
    /// Identities of replicas that have already relayed this envelope.
    pub received_by: Vec<Vec<u8>>,
    /// Random fixed-width freshness identifier.
    pub id: Vec<u8>,
}

pub struct TransportMessageView {
    pub data: Seq<u8>,
    pub sig: Seq<u8>,
    pub signed_by: Seq<u8>,
    pub publisher: Seq<char>,
    pub received_by: Seq<Seq<u8>>,
    pub id: Seq<u8>,
}

impl TransportMessage {
    pub open spec fn dv(self) -> TransportMessageView {
        TransportMessageView {
            data: self.data@,
            sig: self.signature.data@,
            signed_by: self.signature.signed_by@,
            publisher: self.publisher@,
            received_by: self.received_by.deep_view(),
            id: self.id@,
        }
    }

    /// The embedded public key is a well-formed 64-byte export.
    pub open spec fn key_ok(self) -> bool {
        &&& self.signature.signed_by@.len() == 64
        &&& is_vkey(self.signature.signed_by@.subrange(0, 32))
        &&& is_vkey(self.signature.signed_by@.subrange(32, 64))
    }

    /// The signature verdict for this envelope under its embedded key.
    pub open spec fn sig_ok(self) -> bool {
        verify_of(self.signature.signed_by@.subrange(0, 32), self.data@, self.signature.data@)
    }

    /// Serializes a batch, signs the bytes, and wraps everything into a fresh
    /// envelope with an empty relay list and a random 64-byte identifier.
    pub fn sign(messages: &Vec<Message>, key: &KeyPair, publisher: String) -> (r:
        TransportMessage)
        requires
            key.wf(),
            forall|i: int| 0 <= i < messages@.len() ==> (#[trigger] messages@[i]).wf(),
        ensures
            r.data@ == enc_messages(msgs_dv(messages@)),
            r.signature.signed_by@ == key.export_public_spec(),
            r.signature.data@ == sig_of(key.signing@, r.data@),
            r.key_ok(),
            r.sig_ok(),
            r.publisher@ == publisher@,
            r.received_by.deep_view() =~= Seq::<Seq<u8>>::empty(),
            r.id@.len() == 64,
    {
        let data = encode_messages(messages);
        let sig = key.sign(data.as_slice());
        let signed_by = key.export_public();
        let r = TransportMessage {
            data,
            signature: MessageSignature { data: sig, signed_by },
            publisher,
            received_by: Vec::new(),
            id: random_bytes(64),
        };
        proof {
            assert(r.received_by.deep_view() =~= Seq::<Seq<u8>>::empty());
            assert(r.signature.signed_by@.subrange(0, 32) =~= vkey_of(key.signing@));
            assert(r.signature.signed_by@.subrange(32, 64) =~= vkey_of(key.encrypting@));
        }
        r
    }

    /// Opens the envelope: imports the embedded key, verifies the signature
    /// over the raw bytes, and only then decodes the batch. Fails closed: a
    /// bad key or signature rejects the envelope before any payload byte is
    /// interpreted.
    pub fn try_into_messages(&self) -> (r: Result<Vec<Message>, ProtocolError>)
        ensures
            match r {
                Result::Ok(ms) => self.key_ok() && self.sig_ok() && dec_messages_exact(self.data@)
                    == Option::Some(msgs_dv(ms@)) && (forall|i: int|
                    0 <= i < ms@.len() ==> (#[trigger] ms@[i]).wf()),
                Result::Err(e) => match e {
                    ProtocolError::Crypto(_) => !(self.key_ok() && self.sig_ok()),
                    ProtocolError::Schema => self.key_ok() && self.sig_ok()
                        && dec_messages_exact(self.data@) is None,
                },
            },
    {
        let pk = match PublicKey::import(self.signature.signed_by.as_slice()) {
            Result::Ok(p) => p,
            Result::Err(_) => {
                return Result::Err(ProtocolError::Crypto(CryptoError::InvalidKey));
            },
        };
        if !pk.verify(self.data.as_slice(), self.signature.data.as_slice()) {
            return Result::Err(ProtocolError::Crypto(CryptoError::InvalidKey));
        }
        match decode_messages(&self.data) {
            Option::Some(ms) => Result::Ok(ms),
            Option::None => Result::Err(ProtocolError::Schema),
        }
    }
}

impl Clone for TransportMessage {
    /// A clone has the same view as the original.
    fn clone(&self) -> (r: Self)
        ensures
            r.dv() == self.dv(),
    {
        let mut received_by: Vec<Vec<u8>> = Vec::new();
        let n = self.received_by.len();
        let mut i: usize = 0;
        while i < n
            invariant
                n == self.received_by@.len(),
                i <= n,
                received_by@.len() == i,
                forall|j: int| 0 <= j < i ==> #[trigger] received_by@[j]@ == self.received_by@[j]@,
            decreases n - i,
        {
            received_by.push(crate::crypto::copy_bytes(self.received_by[i].as_slice()));
            i = i + 1;
        }
        let r = TransportMessage {
            data: crate::crypto::copy_bytes(self.data.as_slice()),
            signature: MessageSignature {
                data: crate::crypto::copy_bytes(self.signature.data.as_slice()),
                signed_by: crate::crypto::copy_bytes(self.signature.signed_by.as_slice()),
            },
            publisher: self.publisher.clone(),
            received_by,
            id: crate::crypto::copy_bytes(self.id.as_slice()),
        };
        proof {
            assert(r.received_by.deep_view() =~~= self.received_by.deep_view());
        }
        r
    }
}


// --------------------------------------------------------- envelope codec

pub open spec fn enc_envelope(v: TransportMessageView) -> Seq<u8> {
    enc_bytes(v.data) + enc_bytes(v.sig) + enc_bytes(v.signed_by) + enc_chars(v.publisher)
        + enc_bytes_list_field(v.received_by) + enc_bytes(v.id)
}

pub open spec fn tm_bounded(v: TransportMessageView) -> bool {
    &&& v.data.len() < 0x1_0000_0000_0000_0000
    &&& v.sig.len() < 0x1_0000_0000_0000_0000
    &&& v.signed_by.len() < 0x1_0000_0000_0000_0000
    &&& encode_utf8(v.publisher).len() < 0x1_0000_0000_0000_0000
    &&& bytes_list_bounded(v.received_by)
    &&& v.id.len() < 0x1_0000_0000_0000_0000
}

/// Decodes a whole buffer as one envelope; trailing bytes are refused.
pub open spec fn dec_envelope_exact(s: Seq<u8>) -> Option<TransportMessageView> {
    match dec_bytes(s, 0) {
        Option::Some((data, j1)) => match dec_bytes(s, j1) {
            Option::Some((sig, j2)) => match dec_bytes(s, j2) {
                Option::Some((signed_by, j3)) => match dec_chars(s, j3) {
                    Option::Some((publisher, j4)) => match dec_bytes_list_field(s, j4) {
                        Option::Some((received_by, j5)) => match dec_bytes(s, j5) {
                            Option::Some((id, j6)) => if j6 == s.len() {
                                Option::Some(
                                    TransportMessageView {
                                        data,
                                        sig,
                                        signed_by,
                                        publisher,
                                        received_by,
                                        id,
                                    },
                                )
                            } else {
                                Option::None
                            },
                            Option::None => Option::None,
                        },
                        Option::None => Option::None,
                    },
                    Option::None => Option::None,
                },
                Option::None => Option::None,
            },
            Option::None => Option::None,
        },
        Option::None => Option::None,
    }
}

/// The envelope's wire bytes: each field length-prefixed, in a fixed order.
pub fn encode_envelope(tm: &TransportMessage) -> (r: Vec<u8>)
    ensures
        r@ == enc_envelope(tm.dv()),
{
    let mut out: Vec<u8> = Vec::new();
    encode_byte_str(&tm.data, &mut out);
    encode_byte_str(&tm.signature.data, &mut out);
    encode_byte_str(&tm.signature.signed_by, &mut out);
    encode_str(tm.publisher.as_str(), &mut out);
    encode_bytes_list(&tm.received_by, &mut out);
    encode_byte_str(&tm.id, &mut out);
    proof {
        assert(out@ =~= enc_envelope(tm.dv()));
    }
    out
}

/// Decodes one envelope from a whole buffer.
pub fn decode_envelope(s: &Vec<u8>) -> (r: Option<TransportMessage>)
    ensures
        match r {
            Option::Some(tm) => dec_envelope_exact(s@) == Option::Some(tm.dv()),
            Option::None => dec_envelope_exact(s@) is None,
        },
{
    let (data, j1) = match decode_byte_str(s, 0) {
        Option::Some(p) => p,
        Option::None => {
            return Option::None;
        },
    };
    let (sig, j2) = match decode_byte_str(s, j1) {
        Option::Some(p) => p,
        Option::None => {
            return Option::None;
        },
    };
    let (signed_by, j3) = match decode_byte_str(s, j2) {
        Option::Some(p) => p,
        Option::None => {
            return Option::None;
        },
    };
    let (publisher, j4) = match decode_str(s, j3) {
        Option::Some(p) => p,
        Option::None => {
            return Option::None;
        },
    };
    let (received_by, j5) = match decode_bytes_list(s, j4) {
        Option::Some(p) => p,
        Option::None => {
            return Option::None;
        },
    };
    let (id, j6) = match decode_byte_str(s, j5) {
        Option::Some(p) => p,
        Option::None => {
            return Option::None;
        },
    };
    if j6 != s.len() {
        return Option::None;
    }
    Option::Some(
        TransportMessage {
            data,
            signature: MessageSignature { data: sig, signed_by },
            publisher,
            received_by,
            id,
        },
    )
}

/// Encoding an envelope and decoding the bytes yields the envelope back.
pub proof fn lemma_envelope_round_trip(v: TransportMessageView)
    requires
        tm_bounded(v),
    ensures
        dec_envelope_exact(enc_envelope(v)) == Option::Some(v),
{
    lemma_auto_spec_u64_to_from_le_bytes();
    let s = enc_envelope(v);
    let a = enc_bytes(v.data);
    let b = enc_bytes(v.sig);
    let c = enc_bytes(v.signed_by);
    let d = enc_chars(v.publisher);
    let e = enc_bytes_list_field(v.received_by);
    let f = enc_bytes(v.id);
    assert(s.subrange(0, s.len() as int) =~= s);
    assert(s =~= a + (b + (c + (d + (e + f)))));
    lemma_split2(s, 0, a, b + (c + (d + (e + f))));
    lemma_split2(s, a.len() as int, b, c + (d + (e + f)));
    lemma_split2(s, a.len() as int + b.len(), c, d + (e + f));
    lemma_split2(s, a.len() as int + b.len() + c.len(), d, e + f);
    lemma_split2(s, a.len() as int + b.len() + c.len() + d.len(), e, f);
    lemma_dec_bytes_enc(s, 0, v.data);
    lemma_dec_bytes_enc(s, a.len() as int, v.sig);
    lemma_dec_bytes_enc(s, a.len() as int + b.len(), v.signed_by);
    lemma_dec_chars_enc(s, a.len() as int + b.len() + c.len(), v.publisher);
    lemma_dec_bytes_list_field_enc(s, a.len() as int + b.len() + c.len() + d.len(), v.received_by);
    lemma_dec_bytes_enc(s, a.len() as int + b.len() + c.len() + d.len() + e.len(), v.id);
}

} // verus!



