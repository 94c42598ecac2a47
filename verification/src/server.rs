//! The SKK protocol: what the server does with a request, and the answers it sends.
use vstd::prelude::*;
use crate::bytes::{append_bytes, occurs_at};
use crate::outside::find_bytes;
use crate::config::Config;
use crate::encoding_simple::{EncodingTable, Euc};
use crate::encoding_simple::euc::spec_encode;
use crate::error::SkkError;

verus! {

/// Requests longer than this are refused.
pub const PROTOCOL_MAXIMUM_LENGTH: usize = 2044;
/// Requests shorter than this (`1a `) are refused.
pub const PROTOCOL_MINIMUM_LENGTH: usize = 3;

pub const LF: u8 = 0x0a;
pub const CR: u8 = 0x0d;

/// Whether the connection stays open after a request.
#[derive(Clone, Copy, Debug, PartialEq, Eq, Structural)]
pub enum HandleClientResult {
    Continue,
    Exit,
}

/// What the server does with a request.
pub enum ClientRequest {
    /// Close the connection (`0`).
    Exit,
    /// Send these bytes.
    Send(Vec<u8>),
    /// Look these candidates up (`1midashi `, the midashi in EUC).
    Candidates(Vec<u8>),
    /// Look these completions up (`4midashi `, the midashi in EUC).
    Abbrev(Vec<u8>),
}

/// The server: its settings and its version string.
pub struct Server {
    pub config: Config,
    pub pkg_version: Vec<u8>,
}

/// `0\n`, the answer to a request that is not understood.
pub open spec fn protocol_result_error() -> Seq<u8> {
    seq![0x30u8, LF]
}

/// Whether a `1` or `4` request has an acceptable length.
pub open spec fn spec_valid_length(buffer: Seq<u8>) -> bool {
    PROTOCOL_MINIMUM_LENGTH <= buffer.len() <= PROTOCOL_MAXIMUM_LENGTH
}

/// The request with its midashi in EUC: encoded from UTF-8 where the server takes UTF-8
/// midashi.
pub open spec fn euc_request(t: EncodingTable, utf8: bool, buffer: Seq<u8>) -> Seq<u8> {
    if utf8 { spec_encode(t, buffer) } else { buffer }
}

/// The answer to a `3` request, in the form `hostname:addr:[addr...:] `: the configured host
/// name and addresses, a `:` after the last address where it has none, and a closing space.
pub open spec fn protocol_3_reply(hostname: Seq<u8>) -> Seq<u8> {
    if hostname.len() > 0 && hostname.last() == 0x3a {
        hostname + seq![0x20u8]
    } else {
        hostname + seq![0x3au8, 0x20u8]
    }
}

/// Whether a one-byte request (`0`, `2` or `3`) stands at `i` of what has arrived, after line
/// ends only.
pub open spec fn one_byte_request_at(a: Seq<u8>, i: int) -> bool {
    &&& 0 <= i < a.len()
    &&& (a[i] == 0x30 || a[i] == 0x32 || a[i] == 0x33)
    &&& forall|j: int| 0 <= j < i ==> (a[j] == LF || a[j] == CR)
}

/// What the server does with `buffer`: close on `0`; look up on `1` and `4` (or answer `0\n`
/// where the request has no acceptable length); send the version and a space on `2`; send the
/// host name and addresses on `3` (see `protocol_3_reply`); answer `0\n` to anything else.
pub open spec fn spec_handle_client(
    t: EncodingTable,
    utf8: bool,
    pkg_version: Seq<u8>,
    hostname: Seq<u8>,
    buffer: Seq<u8>,
) -> (int, Seq<u8>) {
    let b = buffer[0];
    if b == 0x30 {
        (0, Seq::empty())
    } else if b == 0x31 || b == 0x34 {
        let e = euc_request(t, utf8, buffer);
        if !spec_valid_length(e) {
            (3, protocol_result_error())
        } else if b == 0x31 {
            (1, e)
        } else {
            (4, e)
        }
    } else if b == 0x32 {
        (3, pkg_version + seq![0x20u8])
    } else if b == 0x33 {
        (3, protocol_3_reply(hostname))
    } else {
        (3, protocol_result_error())
    }
}

/// The kind of a request and its bytes, as `spec_handle_client` numbers them: 0 close, 1
/// candidates, 3 send, 4 completions.
pub open spec fn request_view(r: ClientRequest) -> (int, Seq<u8>) {
    match r {
        ClientRequest::Exit => (0, Seq::empty()),
        ClientRequest::Candidates(v) => (1, v@),
        ClientRequest::Send(v) => (3, v@),
        ClientRequest::Abbrev(v) => (4, v@),
    }
}

/// How a request is dispatched, for any request `r` that `handle_client` may give for
/// `buffer`: a `1` request of acceptable length is looked up as candidates, with its bytes (in
/// EUC), and a `4` request as completions; only a `1` request is ever looked up as candidates,
/// and only a `4` request as completions. A server that takes EUC midashi passes the bytes on
/// as they came.
pub proof fn lemma_request_dispatch(
    t: EncodingTable,
    utf8: bool,
    pkg_version: Seq<u8>,
    hostname: Seq<u8>,
    buffer: Seq<u8>,
    r: ClientRequest,
)
    requires
        buffer.len() >= 1,
        request_view(r) == spec_handle_client(t, utf8, pkg_version, hostname, buffer),
    ensures
        buffer[0] == 0x31 && spec_valid_length(euc_request(t, utf8, buffer))
            ==> (r matches ClientRequest::Candidates(v) && v@ == euc_request(t, utf8, buffer)),
        buffer[0] == 0x34 && spec_valid_length(euc_request(t, utf8, buffer))
            ==> (r matches ClientRequest::Abbrev(v) && v@ == euc_request(t, utf8, buffer)),
        r is Candidates ==> buffer[0] == 0x31,
        r is Abbrev ==> buffer[0] == 0x34,
        r is Exit <==> buffer[0] == 0x30,
        !utf8 ==> euc_request(t, utf8, buffer) == buffer,
{
}

/// The answer to a `1` request: the candidates followed by LF; where there are none, the
/// request itself with its first byte made `4`, ending in an LF (one added where it ends in
/// neither LF nor CR); `0\n` where the look-up failed.
pub open spec fn spec_candidates_answer(result: Result<Seq<u8>, SkkError>, buffer: Seq<u8>) -> Seq<u8> {
    match result {
        Err(_) => protocol_result_error(),
        Ok(c) => if c.len() == 1 {
            let b = buffer.update(0, 0x34u8);
            if b.last() == LF || b.last() == CR { b } else { b.push(LF) }
        } else {
            c.push(LF)
        },
    }
}

/// The answer to a `4` request: as for `1`, but an empty answer sends the request unchanged.
pub open spec fn spec_abbrev_answer(result: Result<Seq<u8>, SkkError>, buffer: Seq<u8>) -> Seq<u8> {
    match result {
        Err(_) => protocol_result_error(),
        Ok(c) => if c.len() == 1 {
            if buffer.last() == LF || buffer.last() == CR { buffer } else { buffer.push(LF) }
        } else {
            c.push(LF)
        },
    }
}

/// How many bytes to skip at the start of a request: up to two CR or LF bytes.
pub open spec fn spec_buffer_skip_count(buffer: Seq<u8>, size: int) -> int {
    if size >= 2 && (buffer[1] == LF || buffer[1] == CR) && (buffer[0] == LF || buffer[0] == CR) {
        2
    } else if size >= 1 && (buffer[0] == LF || buffer[0] == CR) {
        1
    } else {
        0
    }
}

impl Server {
    /// Whether a `1` or `4` request has an acceptable length.
    pub fn validate_buffer_for_protocol_1_and_4(buffer: &[u8]) -> (r: bool)
        ensures
            r == spec_valid_length(buffer@),
    {
        buffer.len() >= PROTOCOL_MINIMUM_LENGTH && buffer.len() <= PROTOCOL_MAXIMUM_LENGTH
    }

    /// What the server does with a request: see `spec_handle_client`.
    pub fn handle_client(&self, buffer: &[u8], table: &EncodingTable) -> (r: ClientRequest)
        requires
            buffer.len() >= 1,
            table.wf(),
        ensures
            request_view(r) == spec_handle_client(*table, self.config.is_midashi_utf8, self.pkg_version@,
                self.config.hostname_and_ip_address_for_protocol_3@, buffer@),
    {
        let b = buffer[0];
        if b == 0x30 {
            ClientRequest::Exit
        } else if b == 0x31 || b == 0x34 {
            let e = if self.config.is_midashi_utf8 {
                match Euc::encode(buffer, table) {
                    Ok(v) => v,
                    Err(_) => Vec::new(),
                }
            } else {
                let mut v: Vec<u8> = Vec::new();
                append_bytes(&mut v, buffer);
                assert(v@ =~= buffer@);
                v
            };
            if !Self::validate_buffer_for_protocol_1_and_4(e.as_slice()) {
                let v: Vec<u8> = vec![0x30, LF];
                assert(v@ =~= protocol_result_error());
                ClientRequest::Send(v)
            } else if b == 0x31 {
                ClientRequest::Candidates(e)
            } else {
                ClientRequest::Abbrev(e)
            }
        } else if b == 0x32 {
            let mut v: Vec<u8> = Vec::new();
            append_bytes(&mut v, self.pkg_version.as_slice());
            v.push(0x20);
            ClientRequest::Send(v)
        } else if b == 0x33 {
            let mut v: Vec<u8> = Vec::new();
            let h = self.config.hostname_and_ip_address_for_protocol_3.as_slice();
            append_bytes(&mut v, h);
            if h.len() == 0 || h[h.len() - 1] != 0x3a {
                v.push(0x3a);
            }
            v.push(0x20);
            assert(v@ =~= protocol_3_reply(h@));
            ClientRequest::Send(v)
        } else {
            let v: Vec<u8> = vec![0x30, LF];
            assert(v@ =~= protocol_result_error());
            ClientRequest::Send(v)
        }
    }

    /// The answer to a `1` request: see `spec_candidates_answer`.
    pub fn candidates_answer(result: &Result<Vec<u8>, SkkError>, buffer: &[u8]) -> (r: Vec<u8>)
        requires
            buffer.len() >= 1,
        ensures
            r@ == spec_candidates_answer(match result { Ok(v) => Ok(v@), Err(e) => Err(*e) }, buffer@),
    {
        match result {
            Err(_) => {
                let v: Vec<u8> = vec![0x30, LF];
                assert(v@ =~= protocol_result_error());
                v
            },
            Ok(c) => {
                if c.len() == 1 {
                    let mut b: Vec<u8> = Vec::new();
                    append_bytes(&mut b, buffer);
                    b.set(0, 0x34);
                    assert(b@ =~= buffer@.update(0, 0x34u8));
                    let last = b[b.len() - 1];
                    if last != LF && last != CR {
                        b.push(LF);
                    }
                    b
                } else {
                    let mut v: Vec<u8> = Vec::new();
                    append_bytes(&mut v, c.as_slice());
                    v.push(LF);
                    assert(v@ =~= c@.push(LF));
                    v
                }
            },
        }
    }

    /// The answer to a `4` request: see `spec_abbrev_answer`.
    pub fn abbrev_answer(result: &Result<Vec<u8>, SkkError>, buffer: &[u8]) -> (r: Vec<u8>)
        requires
            buffer.len() >= 1,
        ensures
            r@ == spec_abbrev_answer(match result { Ok(v) => Ok(v@), Err(e) => Err(*e) }, buffer@),
    {
        match result {
            Err(_) => {
                let v: Vec<u8> = vec![0x30, LF];
                assert(v@ =~= protocol_result_error());
                v
            },
            Ok(c) => {
                if c.len() == 1 {
                    let mut b: Vec<u8> = Vec::new();
                    append_bytes(&mut b, buffer);
                    assert(b@ =~= buffer@);
                    let last = b[b.len() - 1];
                    if last != LF && last != CR {
                        b.push(LF);
                    }
                    b
                } else {
                    let mut v: Vec<u8> = Vec::new();
                    append_bytes(&mut v, c.as_slice());
                    v.push(LF);
                    assert(v@ =~= c@.push(LF));
                    v
                }
            },
        }
    }

    /// How many bytes to skip at the start of a request: see `spec_buffer_skip_count`.
    pub fn get_buffer_skip_count(buffer: &[u8], size: usize) -> (r: usize)
        requires
            size <= buffer.len(),
        ensures
            r == spec_buffer_skip_count(buffer@, size as int),
    {
        if size >= 2 && (buffer[1] == LF || buffer[1] == CR) && (buffer[0] == LF || buffer[0] == CR) {
            2
        } else if size >= 1 && (buffer[0] == LF || buffer[0] == CR) {
            1
        } else {
            0
        }
    }

    /// How much of what has arrived, `available`, completes a request: up to and including its
    /// first space; where there is none, up to and including a one-byte request (`0`, `2` or
    /// `3`) after line ends only (see `one_byte_request_at`); none where the request is not
    /// complete yet, and all that has arrived is taken while more is read.
    pub fn request_end(available: &[u8]) -> (r: Option<usize>)
        ensures
            match r {
                Some(n) => 1 <= n <= available.len() && (
                    (occurs_at(available@, seq![0x20u8], n - 1)
                        && forall|j: int| 0 <= j < n - 1 ==> !occurs_at(available@, seq![0x20u8], j))
                    || ((forall|j: int| !occurs_at(available@, seq![0x20u8], j)) && one_byte_request_at(available@, n - 1))),
                None => (forall|j: int| !occurs_at(available@, seq![0x20u8], j))
                    && forall|i: int| !one_byte_request_at(available@, i),
            },
    {
        let space: [u8; 1] = [0x20];
        assert(space@ =~= seq![0x20u8]);
        match find_bytes(available, &space) {
            Some(i) => {
                assert(i + 1 <= available.len());
                Some(i + 1)
            },
            None => match Self::find_one_character_protocol(available) {
                Some(i) => Some(i + 1),
                None => None,
            },
        }
    }

    /// Where a one-byte request (`0`, `2` or `3`) ends in what has arrived: the first byte that
    /// is not CR or LF, where it is one of those three.
    pub fn find_one_character_protocol(available: &[u8]) -> (r: Option<usize>)
        ensures
            match r {
                Some(i) => i < available.len() && (available@[i as int] == 0x30 || available@[i as int] == 0x32 || available@[i as int] == 0x33)
                    && forall|j: int| 0 <= j < i ==> (available@[j] == LF || available@[j] == CR),
                None => forall|i: int| 0 <= i < available.len()
                    && (forall|j: int| 0 <= j < i ==> (available@[j] == LF || available@[j] == CR))
                    ==> !(available@[i] == 0x30 || available@[i] == 0x32 || available@[i] == 0x33),
            },
    {
        let mut i: usize = 0;
        while i < available.len()
            invariant
                i <= available.len(),
                forall|j: int| 0 <= j < i ==> (available@[j] == LF || available@[j] == CR),
            decreases available.len() - i,
        {
            let c = available[i];
            if c == 0x30 || c == 0x32 || c == 0x33 {
                return Some(i);
            }
            if c != LF && c != CR {
                return None;
            }
            i += 1;
        }
        None
    }

    /// The next free connection slot after `next_socket_index`, going round: `is_free[i]`
    /// tells whether slot `i` is free; one is.
    pub fn get_empty_sockets_index(is_free: &[bool], sockets_length: usize, next_socket_index: usize) -> (r: usize)
        requires
            sockets_length == is_free.len(),
            sockets_length >= 1,
            next_socket_index < sockets_length,
            exists|i: int| 0 <= i < is_free.len() && is_free@[i],
        ensures
            r < sockets_length,
            is_free@[r as int],
            r == first_free_from(is_free@, next_socket_index as int, 0),
    {
        let n = sockets_length;
        let mut index = next_socket_index + 1;
        if index >= n {
            index = 0;
        }
        proof {
            vstd::arithmetic::div_mod::lemma_small_mod(next_socket_index as nat, n as nat);
            lemma_mod_step(next_socket_index as int, n as int);
        }
        let mut k: usize = 0;
        while k < n
            invariant
                sockets_length == is_free.len(),
                n == sockets_length,
                n >= 1,
                next_socket_index < n,
                k <= n,
                k < n ==> index < n,
                k < n ==> index as int == (next_socket_index + 1 + k) % (n as int),
                forall|d: int| 0 <= d < k ==> !is_free@[#[trigger] ((next_socket_index + 1 + d) % (n as int))],
                first_free_from(is_free@, next_socket_index as int, 0) == first_free_from(is_free@, next_socket_index as int, k as int),
            decreases n - k,
        {
            if is_free[index] {
                return index;
            }
            proof {
                lemma_mod_step(next_socket_index + 1 + k, n as int);
                vstd::arithmetic::div_mod::lemma_mod_bound(next_socket_index + 1 + k, n as int);
            }
            index += 1;
            if index >= n {
                index = 0;
            }
            k += 1;
        }
        proof {
            let w = choose|i: int| 0 <= i < is_free.len() && is_free@[i];
            let d = (w - (next_socket_index + 1)) % (n as int);
            lemma_mod_back(w, next_socket_index + 1, n as int);
            assert(!is_free@[((next_socket_index + 1 + d) % (n as int))]);
        }
        index
    }
}

/// The first free slot of `free` at or after `d` places past `from` (counting from the slot
/// after `from`, going round); -1 where there is none.
pub open spec fn first_free_from(free: Seq<bool>, from: int, d: int) -> int
    decreases free.len() - d,
{
    if d < 0 || d >= free.len() {
        -1
    } else if free[(from + 1 + d) % (free.len() as int)] {
        (from + 1 + d) % (free.len() as int)
    } else {
        first_free_from(free, from, d + 1)
    }
}

proof fn lemma_mod_step(a: int, n: int)
    requires
        n >= 1,
        a >= 0,
    ensures
        (if a % n + 1 >= n { 0 } else { a % n + 1 }) == (a + 1) % n,
{
    vstd::arithmetic::div_mod::lemma_fundamental_div_mod(a, n);
    vstd::arithmetic::div_mod::lemma_mod_pos_bound(a, n);
    let q = a / n;
    let r = a % n;
    if r + 1 < n {
        assert(a + 1 == q * n + (r + 1)) by (nonlinear_arith)
            requires a == n * q + r;
        vstd::arithmetic::div_mod::lemma_fundamental_div_mod_converse(a + 1, n, q, r + 1);
    } else {
        assert(a + 1 == (q + 1) * n + 0) by (nonlinear_arith)
            requires a == n * q + r, r + 1 == n;
        vstd::arithmetic::div_mod::lemma_fundamental_div_mod_converse(a + 1, n, q + 1, 0);
    }
}

proof fn lemma_mod_back(w: int, s: int, n: int)
    requires
        n >= 1,
        0 <= w < n,
        s >= 0,
    ensures
        0 <= (w - s) % n < n,
        (s + (w - s) % n) % n == w,
{
    vstd::arithmetic::div_mod::lemma_mod_bound(w - s, n);
    vstd::arithmetic::div_mod::lemma_fundamental_div_mod(w - s, n);
    let q = (w - s) / n;
    let d = (w - s) % n;
    assert(s + d == (-q) * n + w) by (nonlinear_arith)
        requires w - s == n * q + d;
    vstd::arithmetic::div_mod::lemma_fundamental_div_mod_converse(s + d, n, -q, w);
}


/// How many slots of `free` hold a connection.
pub open spec fn taken_count(free: Seq<bool>) -> nat
    decreases free.len(),
{
    if free.len() == 0 {
        0
    } else {
        taken_count(free.drop_last()) + if free.last() { 0nat } else { 1nat }
    }
}

proof fn lemma_taken_count_bound(free: Seq<bool>)
    ensures
        taken_count(free) <= free.len(),
        taken_count(free) < free.len() ==> exists|i: int| 0 <= i < free.len() && free[i],
    decreases free.len(),
{
    if free.len() > 0 {
        lemma_taken_count_bound(free.drop_last());
        if taken_count(free) < free.len() && !free.last() {
            let i = choose|i: int| 0 <= i < free.drop_last().len() && free.drop_last()[i];
            assert(free[i]);
        }
    }
}

proof fn lemma_taken_count_update(free: Seq<bool>, i: int, b: bool)
    requires
        0 <= i < free.len(),
    ensures
        taken_count(free.update(i, b)) + (if free[i] { 0int } else { 1int })
            == taken_count(free) + (if b { 0int } else { 1int }),
    decreases free.len(),
{
    let u = free.update(i, b);
    if i == free.len() - 1 {
        assert(u.drop_last() =~= free.drop_last());
    } else {
        lemma_taken_count_update(free.drop_last(), i, b);
        assert(u.drop_last() =~= free.drop_last().update(i, b));
    }
}

/// The connection slots of the server loop: which slots are free, how many hold a connection,
/// and the slot that the next connection takes.
pub struct ConnectionSlots {
    free: Vec<bool>,
    count: usize,
    next: usize,
}

impl ConnectionSlots {
    /// The slots are consistent: the count is that of the taken slots, and while one is free
    /// the next connection's slot is free.
    #[verifier::type_invariant]
    spec fn slots_ok(&self) -> bool {
        &&& self.count == taken_count(self.free@)
        &&& self.free@.len() > 0 ==> self.next < self.free@.len()
        &&& self.count < self.free@.len() ==> self.free@[self.next as int]
    }

    /// Which slots are free.
    pub closed spec fn free_view(&self) -> Seq<bool> {
        self.free@
    }

    /// How many slots hold a connection.
    pub closed spec fn count_view(&self) -> nat {
        self.count as nat
    }

    /// The slot that the next connection takes.
    pub closed spec fn next_view(&self) -> nat {
        self.next as nat
    }

    /// `max_connections` free slots; the first connection takes slot 0.
    pub fn new(max_connections: usize) -> (r: Self)
        ensures
            r.free_view() == Seq::new(max_connections as nat, |i: int| true),
            r.count_view() == 0,
            r.count_view() == taken_count(r.free_view()),
            r.next_view() == 0,
    {
        let mut free: Vec<bool> = Vec::new();
        let mut i: usize = 0;
        while i < max_connections
            invariant
                i <= max_connections,
                free@ == Seq::new(i as nat, |k: int| true),
                taken_count(free@) == 0,
            decreases max_connections - i,
        {
            free.push(true);
            i += 1;
            assert(free@.drop_last() =~= Seq::new((i - 1) as nat, |k: int| true));
            assert(free@ =~= Seq::new(i as nat, |k: int| true));
        }
        ConnectionSlots { free, count: 0, next: 0 }
    }

    /// How many slots there are.
    pub fn len(&self) -> (r: usize)
        ensures
            r == self.free_view().len(),
    {
        self.free.len()
    }

    /// Whether `slot` holds a connection.
    pub fn is_taken(&self, slot: usize) -> (r: bool)
        ensures
            r == (slot < self.free_view().len() && !self.free_view()[slot as int]),
    {
        slot < self.free.len() && !self.free[slot]
    }

    /// A connection was accepted: refused (`None`, nothing changes) where every slot holds one;
    /// else it takes the next slot, which is returned, and the next connection's slot becomes
    /// the first free one after it, going round.
    pub fn accept(&mut self) -> (r: Option<usize>)
        ensures
            old(self).count_view() >= old(self).free_view().len() ==> r is None && *final(self) == *old(self),
            final(self).count_view() == taken_count(final(self).free_view()),
            final(self).count_view() <= final(self).free_view().len(),
            final(self).free_view().len() == old(self).free_view().len(),
            old(self).count_view() < old(self).free_view().len() ==> {
                &&& r == Some(old(self).next_view() as usize)
                &&& old(self).free_view()[old(self).next_view() as int]
                &&& final(self).free_view() == old(self).free_view().update(old(self).next_view() as int, false)
                &&& final(self).count_view() == old(self).count_view() + 1
                &&& final(self).next_view() == if final(self).count_view() < final(self).free_view().len() {
                        first_free_from(final(self).free_view(), old(self).next_view() as int, 0)
                    } else {
                        old(self).next_view() as int
                    }
            },
    {
        proof {
            use_type_invariant(&*self);
            lemma_taken_count_bound(self.free@);
        }
        if self.count >= self.free.len() {
            return None;
        }
        assert(self.free@[self.next as int]);
        let mut slots = ConnectionSlots { free: Vec::new(), count: 0, next: 0 };
        std::mem::swap(&mut slots, self);
        proof { use_type_invariant(&slots); }
        let ConnectionSlots { mut free, count, next } = slots;
        let slot = next;
        proof {
            lemma_taken_count_update(free@, slot as int, false);
            lemma_taken_count_bound(free@.update(slot as int, false));
        }
        free.set(slot, false);
        let count = count + 1;
        let mut next = next;
        if count < free.len() {
            let n = free.len();
            next = Server::get_empty_sockets_index(free.as_slice(), n, slot);
        }
        *self = ConnectionSlots { free, count, next };
        Some(slot)
    }

    /// The connection in `slot` ended: the slot is free again and the next connection takes
    /// it.
    pub fn release(&mut self, slot: usize)
        requires
            slot < old(self).free_view().len(),
            !old(self).free_view()[slot as int],
        ensures
            final(self).count_view() == taken_count(final(self).free_view()),
            final(self).count_view() <= final(self).free_view().len(),
            final(self).free_view() == old(self).free_view().update(slot as int, true),
            final(self).count_view() + 1 == old(self).count_view(),
            final(self).next_view() == slot,
    {
        proof { use_type_invariant(&*self); }
        let mut slots = ConnectionSlots { free: Vec::new(), count: 0, next: 0 };
        std::mem::swap(&mut slots, self);
        proof { use_type_invariant(&slots); }
        let ConnectionSlots { mut free, count, next } = slots;
        proof {
            lemma_taken_count_update(free@, slot as int, true);
            lemma_taken_count_bound(free@.update(slot as int, true));
        }
        free.set(slot, true);
        *self = ConnectionSlots { free, count: count - 1, next: slot };
    }
}

} // verus!
