//! What the parser keeps track of for a connection.

use super::static_table::NUM_ENTRIES;
use vstd::prelude::*;

verus! {

/// The index the first entry of a dynamic table is stored under. Must stay in
/// sync with `DYNAMIC_TABLE_BASE` of h2/parser.bpf.c.
pub const DYNAMIC_TABLE_BASE: u32 = 62;

/// The address the BPF programs key their per connection state with.
#[derive(Clone, Copy, Debug, PartialEq, Eq, Structural)]
pub struct Ip4Addr {
    /// The octets of the address, as the machine reads them out of memory.
    pub ip4: u32,

    /// The port.
    pub port: u32,
}

/// The number four bytes stand for, the first of which counts least.
pub open spec fn little_endian(b: Seq<u8>) -> int {
    b[0] + 0x100 * b[1] + 0x10000 * b[2] + 0x1000000 * b[3]
}

/// The number four bytes stand for, the first of which counts most.
pub open spec fn big_endian(b: Seq<u8>) -> int {
    0x1000000 * b[0] + 0x10000 * b[1] + 0x100 * b[2] + b[3]
}

/// Whether `n` is what a machine reads four bytes as, in one of the two orders
/// there are.
pub open spec fn reads_word(n: u32, b: Seq<u8>) -> bool {
    n == little_endian(b) || n == big_endian(b)
}

/// Reads four bytes with [`u32::from_ne_bytes`], which does so in the order of
/// the machine: one of the two there are. Which one the machine has is left
/// unsaid.
#[verifier::external_body]
fn native_endian(octets: [u8; 4]) -> (r: u32)
    ensures
        reads_word(r, octets@),
{
    u32::from_ne_bytes(octets)
}

/// Whether `words` are what a machine reads the bytes as, all of them in one of
/// the two orders there are.
pub open spec fn reads_words(words: Seq<u32>, bytes: Seq<u8>) -> bool {
    ||| forall|i: int|
        0 <= i < words.len() ==> #[trigger] words[i] == little_endian(
            bytes.subrange(4 * i, 4 * i + 4),
        )
    ||| forall|i: int|
        0 <= i < words.len() ==> #[trigger] words[i] == big_endian(
            bytes.subrange(4 * i, 4 * i + 4),
        )
}

/// Why bytes are not read as words.
#[derive(Clone, Copy, Debug, PartialEq, Eq, Structural)]
pub enum ReadError {
    /// There are fewer bytes than the words take.
    TooShort,

    /// The bytes lie at an address the machine does not read words from.
    BadAlignment,
}

impl ReadError {
    /// The sentence that says why the state of a dynamic table cannot be read.
    pub open spec fn message(self) -> Seq<char> {
        match self {
            ReadError::TooShort => "failed to parse dynamic table info: TooShort"@,
            ReadError::BadAlignment => "failed to parse dynamic table info: BadAlignment"@,
        }
    }

    /// Returns the sentence that says why the state of a dynamic table cannot be
    /// read.
    pub fn to_string(&self) -> (r: String)
        ensures
            r@ == self.message(),
    {
        match self {
            ReadError::TooShort => "failed to parse dynamic table info: TooShort".to_owned(),
            ReadError::BadAlignment => {
                "failed to parse dynamic table info: BadAlignment".to_owned()
            },
        }
    }
}

/// Reads the first `n` words with [`plain::slice_from_bytes_len`], which takes
/// the bytes as they lie in memory for words of the machine, four at a time and
/// one after the other. Bytes at an address that is no multiple of the
/// alignment of a word are refused first, then too few of them. Which byte
/// order the machine has, which alignment, and where the bytes lie is left
/// unsaid.
#[verifier::external_body]
fn read_words(bytes: &[u8], n: usize) -> (r: Result<Vec<u32>, ReadError>)
    ensures
        match r {
            Ok(words) => {
                &&& words@.len() == n
                &&& 4 * n <= bytes@.len()
                &&& reads_words(words@, bytes@)
            },
            Err(ReadError::TooShort) => bytes@.len() < 4 * n,
            Err(ReadError::BadAlignment) => true,
        },
{
    match plain::slice_from_bytes_len::<u32>(bytes, n) {
        Ok(words) => Ok(words.to_vec()),
        Err(plain::Error::TooShort) => Err(ReadError::TooShort),
        Err(plain::Error::BadAlignment) => Err(ReadError::BadAlignment),
    }
}

impl Ip4Addr {
    /// Returns the address the BPF programs know an IPv4 address and a port by.
    pub fn new(octets: [u8; 4], port: u16) -> (r: Ip4Addr)
        ensures
            reads_word(r.ip4, octets@),
            r.port == port,
    {
        Ip4Addr { ip4: native_endian(octets), port: port as u32 }
    }
}

/// The connection the BPF programs key their per connection state with.
#[derive(Clone, Copy, Debug, PartialEq, Eq, Structural)]
pub struct Ip4Conn {
    pub local: Ip4Addr,
    pub remote: Ip4Addr,
}

/// The state of the dynamic table the parser mirrors for a connection.
///
/// This is mostly useful to assert that the kernel side stayed in sync with the
/// peer's own table.
#[derive(Clone, Copy, Debug, PartialEq, Eq, Structural)]
pub struct DynamicTableInfo {
    /// The number of entries currently in the table.
    pub count: u32,

    /// The size of those entries, as defined by section 4.1 of RFC 7541.
    pub size: u32,

    /// The maximum size the peer announced, either as the initial value or with
    /// a `SETTINGS_HEADER_TABLE_SIZE` setting.
    pub max_size: u32,

    /// The number of entries evicted so far. Together with `count` it turns an
    /// HPACK index into an index into the table.
    pub deleted: u32,

    /// Whether the table has drifted from the peer's and can no longer be
    /// trusted.
    ///
    /// It drifts when a header block is split over a HEADERS frame and the
    /// CONTINUATION frames following it in the middle of a field, see section
    /// 6.10 of RFC 9113: the parser cannot address the half of the field that
    /// is in the frame before, so the entry the peer adds is one it cannot
    /// mirror. A table that has drifted is neither added to nor resolved from.
    pub dirty: u32,
}

impl Default for DynamicTableInfo {
    fn default() -> (r: DynamicTableInfo)
        ensures
            r == (DynamicTableInfo { count: 0, size: 0, max_size: 0, deleted: 0, dirty: 0 }),
    {
        DynamicTableInfo { count: 0, size: 0, max_size: 0, deleted: 0, dirty: 0 }
    }
}

impl DynamicTableInfo {
    /// The words the BPF programs store the state of a dynamic table in.
    pub open spec fn words(self) -> Seq<u32> {
        seq![self.count, self.size, self.max_size, self.deleted, self.dirty]
    }

    /// Returns the state of a dynamic table, out of the words the BPF programs
    /// store it in.
    pub fn from_words(words: [u32; 5]) -> (r: DynamicTableInfo)
        ensures
            r.words() == words@,
    {
        let r = DynamicTableInfo {
            count: words[0],
            size: words[1],
            max_size: words[2],
            deleted: words[3],
            dirty: words[4],
        };
        assert(r.words() =~= words@);
        r
    }

    /// Returns the state of a dynamic table, out of the bytes the BPF programs
    /// store it in. What follows them is not looked at.
    ///
    /// # Errors
    ///
    /// Returns an error if there are too few bytes, or if they lie at an address
    /// the machine does not read words from, which is left unsaid of any bytes.
    pub fn from_bytes(bytes: &[u8]) -> (r: Result<DynamicTableInfo, ReadError>)
        ensures
            match r {
                Ok(info) => bytes@.len() >= 20 && reads_words(info.words(), bytes@),
                Err(ReadError::TooShort) => bytes@.len() < 20,
                Err(ReadError::BadAlignment) => true,
            },
    {
        match read_words(bytes, 5) {
            Ok(words) => Ok(
                DynamicTableInfo::from_words([words[0], words[1], words[2], words[3], words[4]]),
            ),
            Err(err) => Err(err),
        }
    }

    /// Returns the indices the entries of the table are stored under, which is
    /// what has to be deleted to forget the connection.
    ///
    /// Entries are stored under the running count of the ones added, the
    /// evicted ones below `deleted` are already gone.
    pub fn entry_indices(&self) -> (r: Vec<u32>)
        requires
            DYNAMIC_TABLE_BASE + self.deleted + self.count <= u32::MAX,
        ensures
            r@ == Seq::new(
                self.count as nat,
                |i: int| (DYNAMIC_TABLE_BASE + self.deleted + i) as u32,
            ),
    {
        let first = DYNAMIC_TABLE_BASE + self.deleted;
        let mut r: Vec<u32> = Vec::new();
        let mut i: u32 = 0;
        while i < self.count
            invariant
                i <= self.count,
                first == DYNAMIC_TABLE_BASE + self.deleted,
                DYNAMIC_TABLE_BASE + self.deleted + self.count <= u32::MAX,
                r@ == Seq::new(
                    i as nat,
                    |i: int| (DYNAMIC_TABLE_BASE + self.deleted + i) as u32,
                ),
            decreases self.count - i,
        {
            r.push(first + i);
            i += 1;
            assert(r@ =~= Seq::new(
                i as nat,
                |i: int| (DYNAMIC_TABLE_BASE + self.deleted + i) as u32,
            ));
        }
        r
    }
}

/// The two byte orders: the bytes of a number are its digits to the base of 256, in
/// one order those that count least first, in the other those that count most.
pub proof fn law_bytes_are_digits(b: Seq<u8>)
    requires
        b.len() == 4,
    ensures
        little_endian(b) % 256 == b[0],
        little_endian(b) / 256 % 256 == b[1],
        little_endian(b) / 256 / 256 % 256 == b[2],
        little_endian(b) / 256 / 256 / 256 == b[3],
        big_endian(b) == little_endian(b.reverse()),
{
    let rest = 256 * b[2] + 65536 * b[3] + b[1];
    assert(little_endian(b) == b[0] + 256 * rest);
    assert(little_endian(b) / 256 == rest);
    assert(rest / 256 == b[2] + 256 * b[3]);
    assert(b.reverse()[0] == b[3] && b.reverse()[1] == b[2] && b.reverse()[2] == b[1]
        && b.reverse()[3] == b[0]);
}

/// The state of a dynamic table is stored in five words: the number of its
/// entries, their size, the size they may have, the number of those that were
/// evicted, and whether it has drifted.
pub proof fn law_words_are_the_fields(info: DynamicTableInfo)
    ensures
        info.words().len() == 5,
        info.count == info.words()[0],
        info.size == info.words()[1],
        info.max_size == info.words()[2],
        info.deleted == info.words()[3],
        info.dirty == info.words()[4],
{
}

/// The entries of a dynamic table come behind those of the static table, which
/// have the indices up to 61.
pub proof fn law_dynamic_entries_follow_the_static_ones()
    ensures
        DYNAMIC_TABLE_BASE == NUM_ENTRIES + 1,
        DYNAMIC_TABLE_BASE == 62,
{
}

} // verus!
