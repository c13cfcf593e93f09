//! What agents may ask of their host.
//!
//! An agent hands over places in its memory; results are kept in a scratch buffer, from
//! which the agent copies them. Negative results are error codes.

use crate::crypto::sign::KeyStore;
use crate::outside::ed25519;
use crate::outside::unicode;
use crate::types::bytes;
use crate::types::cid::Cid;
use vstd::prelude::*;
use vstd::string::*;

verus! {

/// The module under which the functions of the host are found.
pub const HOST_MODULE: &'static str = "craftec";

/// How often an agent may ask for a signature.
pub const SIGN_RATE_LIMIT: u32 = 10;

/// Whether a place of an agent's memory lies within it.
pub open spec fn within(memory_len: nat, ptr: i32, len: i32) -> bool {
    0 <= ptr && 0 <= len && ptr + len <= memory_len
}

/// The bytes at a place of an agent's memory.
pub open spec fn bytes_at(memory: Seq<u8>, ptr: i32, len: i32) -> Seq<u8> {
    memory.subrange(ptr as int, ptr + len)
}

fn fits(memory_len: usize, ptr: i32, len: i32) -> (ok: bool)
    ensures
        ok == within(memory_len as nat, ptr, len),
{
    0 <= ptr && 0 <= len && ptr as u64 + len as u64 <= memory_len as u64
}

fn copy_from(memory: &[u8], ptr: i32, len: i32) -> (data: Vec<u8>)
    requires
        within(memory@.len(), ptr, len),
    ensures
        data@ == bytes_at(memory@, ptr, len),
{
    let mut data: Vec<u8> = Vec::new();
    let start: usize = ptr as usize;
    let n: usize = len as usize;
    let mut i: usize = 0;
    while i < n
        invariant
            i <= n,
            n == len,
            start == ptr,
            within(memory@.len(), ptr, len),
            data@ == memory@.subrange(ptr as int, ptr + i),
        decreases n - i,
    {
        data.push(memory[start + i]);
        proof {
            assert(memory@.subrange(ptr as int, ptr + i + 1) =~= memory@.subrange(
                ptr as int,
                ptr + i,
            ).push(memory@[ptr + i]));
        }
        i = i + 1;
    }
    data
}

/// What came of fetching an object.
pub enum Fetched {
    /// Its bytes.
    Found(Vec<u8>),
    /// There is no such object.
    Missing,
    /// The store failed.
    Failed,
}

/// What came of a query.
pub enum Queried {
    /// The rows, encoded.
    Rows(Vec<u8>),
    /// The rows could not be encoded.
    NotEncoded,
    /// The database refused the query.
    Refused,
}

/// How serious a message of an agent is.
#[derive(Clone, Copy, Debug, PartialEq, Eq, Structural)]
pub enum LogLevel {
    /// An error.
    Error,
    /// A warning.
    Warn,
    /// A piece of information.
    Info,
    /// Something for finding faults.
    Debug,
    /// Anything else.
    Trace,
}

/// What an agent has of its host during one call.
pub struct HostState {
    scratch: Vec<u8>,
    sign_count: u32,
}

/// The functions of the host.
pub struct HostFunctions;

/// The code of a place outside an agent's memory, or of no memory; zero where the place
/// can be read.
pub open spec fn place_code(memory: Option<Seq<u8>>, ptr: i32, len: i32) -> int {
    match memory {
        None => -3,
        Some(m) => if within(m.len(), ptr, len) {
            0
        } else {
            -2
        },
    }
}

/// An agent's memory as a sequence.
pub open spec fn memory_view(memory: Option<&[u8]>) -> Option<Seq<u8>> {
    match memory {
        Some(m) => Some(m@),
        None => None,
    }
}

impl HostFunctions {
    /// The names of the functions, in the order in which they are registered.
    pub fn names() -> (names: Vec<&'static str>)
        ensures
            names@ == seq![
                "craft_store_get",
                "craft_store_put",
                "craft_sql_query",
                "craft_sign",
                "craft_read_result",
                "craft_log",
            ],
    {
        let mut names: Vec<&'static str> = Vec::new();
        names.push("craft_store_get");
        names.push("craft_store_put");
        names.push("craft_sql_query");
        names.push("craft_sign");
        names.push("craft_read_result");
        names.push("craft_log");
        names
    }

    /// The bytes at a place, or the code for a place that cannot be read.
    fn read_place(memory: Option<&[u8]>, ptr: i32, len: i32) -> (result: Result<Vec<u8>, i64>)
        ensures
            match result {
                Ok(data) => memory_view(memory) matches Some(m) && within(m.len(), ptr, len)
                    && data@ == bytes_at(m, ptr, len),
                Err(code) => code == place_code(memory_view(memory), ptr, len) && code != 0,
            },
    {
        match memory {
            None => Err(-3),
            Some(m) => {
                if fits(m.len(), ptr, len) {
                    Ok(copy_from(m, ptr, len))
                } else {
                    Err(-2)
                }
            },
        }
    }

    /// `craft_store_get` begins: the identifier at a place of 32 bytes, or an error code.
    pub fn begin_store_get(memory: Option<&[u8]>, cid_ptr: i32, cid_len: i32) -> (result: Result<
        Cid,
        i64,
    >)
        ensures
            match result {
                Ok(cid) => memory_view(memory) matches Some(m) && cid_len == 32 && within(
                    m.len(),
                    cid_ptr,
                    32,
                ) && cid@ == bytes_at(m, cid_ptr, 32),
                Err(code) => if memory is None {
                    code == -3
                } else {
                    code == -2 && (cid_len != 32 || !within(
                        memory_view(memory)->0.len(),
                        cid_ptr,
                        32,
                    ))
                },
            },
    {
        match HostFunctions::read_place(memory, cid_ptr, cid_len) {
            Err(code) => Err(code),
            Ok(data) => {
                if cid_len != 32 {
                    return Err(-2);
                }
                let mut key: [u8; 32] = [0u8; 32];
                let mut i: usize = 0;
                while i < 32
                    invariant
                        i <= 32,
                        data@.len() == 32,
                        forall|j: int| 0 <= j < i ==> key@[j] == data@[j],
                    decreases 32 - i,
                {
                    key[i] = data[i];
                    i = i + 1;
                }
                proof {
                    assert(key@ =~= data@);
                }
                Ok(Cid::from_bytes(key))
            },
        }
    }

    /// `craft_store_put` begins: the object at a place, or an error code.
    pub fn begin_store_put(memory: Option<&[u8]>, data_ptr: i32, data_len: i32) -> (result: Result<
        Vec<u8>,
        i64,
    >)
        ensures
            match result {
                Ok(data) => memory_view(memory) matches Some(m) && within(
                    m.len(),
                    data_ptr,
                    data_len,
                ) && data@ == bytes_at(m, data_ptr, data_len),
                Err(code) => code == place_code(memory_view(memory), data_ptr, data_len) && code
                    != 0,
            },
    {
        HostFunctions::read_place(memory, data_ptr, data_len)
    }

    /// `craft_sql_query` begins: the query at a place, or an error code, also for bytes that
    /// are no text and where there is no database.
    pub fn begin_sql_query(
        memory: Option<&[u8]>,
        sql_ptr: i32,
        sql_len: i32,
        has_database: bool,
    ) -> (result: Result<String, i64>)
        ensures
            ({
                let code = place_code(memory_view(memory), sql_ptr, sql_len);
                let data = bytes_at(memory_view(memory)->0, sql_ptr, sql_len);
                if code != 0 {
                    result matches Err(c) && c == code
                } else if !vstd::utf8::valid_utf8(data) {
                    result matches Err(c) && c == -2
                } else if !has_database {
                    result matches Err(c) && c == -1
                } else {
                    result matches Ok(sql) && sql@ == vstd::utf8::decode_utf8(data)
                }
            }),
    {
        match HostFunctions::read_place(memory, sql_ptr, sql_len) {
            Err(code) => Err(code),
            Ok(data) => match unicode::read_utf8(data.as_slice()) {
                None => Err(-2),
                Some(sql) => {
                    if has_database {
                        Ok(sql)
                    } else {
                        Err(-1)
                    }
                },
            },
        }
    }

    /// `craft_log`: the message at a place. Bytes that are no text are replaced; a place
    /// outside the memory, and no memory, are told instead.
    pub fn log_text(memory: Option<&[u8]>, msg_ptr: i32, msg_len: i32) -> (words: String)
        ensures
            match memory_view(memory) {
                None => words@ == "<no-memory>"@,
                Some(m) => if within(m.len(), msg_ptr, msg_len) {
                    let data = bytes_at(m, msg_ptr, msg_len);
                    &&& words@ == unicode::lossy_text(data)
                    &&& vstd::utf8::valid_utf8(data) ==> words@ == vstd::utf8::decode_utf8(data)
                } else {
                    words@ == "<out-of-bounds>"@
                },
            },
    {
        match memory {
            None => String::from_str("<no-memory>"),
            Some(m) => {
                if fits(m.len(), msg_ptr, msg_len) {
                    unicode::read_lossy(copy_from(m, msg_ptr, msg_len).as_slice())
                } else {
                    String::from_str("<out-of-bounds>")
                }
            },
        }
    }

    /// `craft_log`: how serious a message is.
    pub fn log_level(level: i32) -> (l: LogLevel)
        ensures
            l == (if level == 0 {
                LogLevel::Error
            } else if level == 1 {
                LogLevel::Warn
            } else if level == 2 {
                LogLevel::Info
            } else if level == 3 {
                LogLevel::Debug
            } else {
                LogLevel::Trace
            }),
    {
        match level {
            0 => LogLevel::Error,
            1 => LogLevel::Warn,
            2 => LogLevel::Info,
            3 => LogLevel::Debug,
            _ => LogLevel::Trace,
        }
    }
}

impl HostState {
    /// The scratch buffer.
    pub closed spec fn buffer(&self) -> Seq<u8> {
        self.scratch@
    }

    /// How many signatures were given.
    pub closed spec fn signed(&self) -> u32 {
        self.sign_count
    }

    /// No more signatures were given than allowed.
    pub closed spec fn wf(&self) -> bool {
        self.sign_count <= SIGN_RATE_LIMIT
    }

    /// No more signatures are given than allowed.
    pub proof fn lemma_sign_limit(&self)
        requires
            self.wf(),
        ensures
            self.signed() <= SIGN_RATE_LIMIT,
    {
    }

    /// An empty buffer and no signature yet.
    pub fn new() -> (state: HostState)
        ensures
            state.wf(),
            state.buffer() == Seq::<u8>::empty(),
            state.signed() == 0,
    {
        HostState { scratch: Vec::new(), sign_count: 0 }
    }

    /// `craft_store_get` ends: the object goes to the buffer, and its length comes back, or
    /// an error code.
    pub fn finish_store_get(&mut self, fetched: Fetched) -> (code: i64)
        requires
            old(self).wf(),
            fetched matches Fetched::Found(data) ==> data@.len() <= i64::MAX,
        ensures
            final(self).wf(),
            final(self).signed() == old(self).signed(),
            match fetched {
                Fetched::Found(data) => code == data@.len() && final(self).buffer() == data@,
                Fetched::Missing => code == -1 && *final(self) == *old(self),
                Fetched::Failed => code == -3 && *final(self) == *old(self),
            },
    {
        match fetched {
            Fetched::Found(data) => {
                let len: i64 = data.len() as i64;
                self.scratch = data;
                len
            },
            Fetched::Missing => -1,
            Fetched::Failed => -3,
        }
    }

    /// `craft_store_put` ends: the identifier goes to the buffer, and its length comes back,
    /// or an error code.
    pub fn finish_store_put(&mut self, stored: Option<Cid>) -> (code: i64)
        requires
            old(self).wf(),
        ensures
            final(self).wf(),
            final(self).signed() == old(self).signed(),
            match stored {
                Some(cid) => code == 32 && final(self).buffer() == cid@,
                None => code == -3 && *final(self) == *old(self),
            },
    {
        match stored {
            Some(cid) => {
                self.scratch = bytes::copy_bytes(cid.as_bytes().as_slice());
                32
            },
            None => -3,
        }
    }

    /// `craft_sql_query` ends: the rows go to the buffer, and their length comes back, or an
    /// error code.
    pub fn finish_sql_query(&mut self, queried: Queried) -> (code: i64)
        requires
            old(self).wf(),
            queried matches Queried::Rows(data) ==> data@.len() <= i64::MAX,
        ensures
            final(self).wf(),
            final(self).signed() == old(self).signed(),
            match queried {
                Queried::Rows(data) => code == data@.len() && final(self).buffer() == data@,
                Queried::NotEncoded => code == -3 && *final(self) == *old(self),
                Queried::Refused => code == -2 && *final(self) == *old(self),
            },
    {
        match queried {
            Queried::Rows(data) => {
                let len: i64 = data.len() as i64;
                self.scratch = data;
                len
            },
            Queried::NotEncoded => -3,
            Queried::Refused => -2,
        }
    }

    /// `craft_sign`: the signature of the message at a place goes to the buffer, and its
    /// length comes back, or an error code, also when the limit is reached.
    pub fn sign(
        &mut self,
        keystore: &KeyStore,
        memory: Option<&[u8]>,
        msg_ptr: i32,
        msg_len: i32,
    ) -> (code: i64)
        requires
            old(self).wf(),
        ensures
            final(self).wf(),
            ({
                let place = place_code(memory_view(memory), msg_ptr, msg_len);
                if old(self).signed() >= SIGN_RATE_LIMIT {
                    code == -1 && *final(self) == *old(self)
                } else if place != 0 {
                    code == place && *final(self) == *old(self)
                } else {
                    &&& code == 64
                    &&& final(self).signed() == old(self).signed() + 1
                    &&& final(self).buffer() == ed25519::ed25519_signature(
                        keystore.secret(),
                        bytes_at(memory_view(memory)->0, msg_ptr, msg_len),
                    )
                }
            }),
    {
        if self.sign_count >= SIGN_RATE_LIMIT {
            return -1;
        }
        match HostFunctions::read_place(memory, msg_ptr, msg_len) {
            Err(code) => code,
            Ok(msg) => {
                let signature = keystore.sign(msg.as_slice());
                self.sign_count = self.sign_count + 1;
                self.scratch = bytes::copy_bytes(signature.as_slice());
                64
            },
        }
    }

    /// `craft_read_result`: which bytes of the buffer are to be copied to which place of the
    /// agent's memory, or an error code: for a part outside the buffer, for no memory, and
    /// for a place outside the memory.
    pub fn read_result(&self, memory_len: Option<usize>, dst_ptr: i32, offset: i32, len: i32) -> (
        result: Result<(usize, Vec<u8>), i32>)
        ensures
            if !within(self.buffer().len(), offset, len) {
                result matches Err(c) && c == -1
            } else if memory_len is None {
                result matches Err(c) && c == -2
            } else if !within(memory_len->0 as nat, dst_ptr, len) {
                result matches Err(c) && c == -3
            } else {
                result matches Ok((dst, chunk)) && dst == dst_ptr && chunk@ == bytes_at(
                    self.buffer(),
                    offset,
                    len,
                )
            },
    {
        if !fits(self.scratch.len(), offset, len) {
            return Err(-1);
        }
        let chunk = copy_from(self.scratch.as_slice(), offset, len);
        match memory_len {
            None => Err(-2),
            Some(n) => {
                if fits(n, dst_ptr, len) {
                    Ok((dst_ptr as usize, chunk))
                } else {
                    Err(-3)
                }
            },
        }
    }
}

}
