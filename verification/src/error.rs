use vstd::prelude::*;
use vstd::string::StringExecFns;

verus! {

/// Every error the table reports.
#[derive(Debug, Clone, PartialEq, Eq)]
pub enum InMemoryTableError {
    InvalidName { name: String },
    ShmAlreadyExists { name: String },
    ShmPermissionDenied,
    ShmNoSpace,
    ShmTooLarge { requested: usize },
    ShmOutOfMemory,
    ShmMappingFailed,
    ShmBadFileDescriptor,
    ShmError(String),
    SemaphoreAlreadyExists { key: i32, name: String },
    SemaphoreLimitReached,
    SemaphorePermissionDenied,
    SemaphoreInvalidParams { requested: usize },
    SemaphoreOutOfMemory,
    SemaphoreOperationFailed { sem_num: usize },
    SemaphoreRemoved,
    SemaphoreInvalidIndex { sem_num: usize, max: usize },
    SemaphoreNotExists { key: i32 },
    SemaphoreError(String),
    TableFull { current: usize, capacity: usize },
    InvalidIndex { index: usize, max: usize },
    SerializationError(String),
    DeserializationError(String),
    NotInitialized,
    RecordSizeTooBig { current: usize, max: usize },
    RecordDuplicated,
    MisalignedMemory { address: usize, required: usize },
    PrimaryKeyChanged,
    IndexNameTooLong { current: usize, max: usize },
    TooManyIndexes { current: usize, max: usize },
    IndexNotFound { name: String },
}

/// The errno values the library tells apart; every other one is `Other`.
#[derive(Debug, Clone, Copy, PartialEq, Eq, Structural)]
pub enum ErrnoKind {
    Exists,
    AccessDenied,
    NotPermitted,
    InvalidArgument,
    NoSpace,
    OutOfMemory,
    BadDescriptor,
    FileTooBig,
    NotFound,
    Removed,
    Other,
}

/// The [`ErrnoKind`] `nix::errno::Errno::from_raw` gives a raw errno. On a
/// given target it depends on the errno alone; the numbers behind it are the
/// target's (`EIDRM` is 43 on x86-64 Linux, 36 on MIPS Linux, 90 on macOS),
/// so only its name is used.
pub uninterp spec fn errno_kind_of(errno: i32) -> ErrnoKind;

/// The text `nix` displays for a raw errno (`"EEXIST: File exists"`, ...).
pub uninterp spec fn errno_text_of(errno: i32) -> Seq<char>;

/// Calls `nix::errno::Errno::from_raw` and tells the resulting variant apart:
/// `EEXIST`, `EACCES`, `EPERM`, `EINVAL`, `ENOSPC`, `ENOMEM`, `EBADF`, `EFBIG`,
/// `ENOENT`, `EIDRM`, or any other; the result is `errno_kind_of`.
#[verifier::external_body]
fn errno_kind(errno: i32) -> (r: ErrnoKind)
    ensures
        r == errno_kind_of(errno),
{
    match nix::errno::Errno::from_raw(errno) {
        nix::errno::Errno::EEXIST => ErrnoKind::Exists,
        nix::errno::Errno::EACCES => ErrnoKind::AccessDenied,
        nix::errno::Errno::EPERM => ErrnoKind::NotPermitted,
        nix::errno::Errno::EINVAL => ErrnoKind::InvalidArgument,
        nix::errno::Errno::ENOSPC => ErrnoKind::NoSpace,
        nix::errno::Errno::ENOMEM => ErrnoKind::OutOfMemory,
        nix::errno::Errno::EBADF => ErrnoKind::BadDescriptor,
        nix::errno::Errno::EFBIG => ErrnoKind::FileTooBig,
        nix::errno::Errno::ENOENT => ErrnoKind::NotFound,
        nix::errno::Errno::EIDRM => ErrnoKind::Removed,
        _ => ErrnoKind::Other,
    }
}

/// Formats `nix::errno::Errno::from_raw(errno)` with its `Display`
/// (the variant name and `nix`'s description); the text is `errno_text_of`.
#[verifier::external_body]
fn errno_text(errno: i32) -> (r: String)
    ensures
        r@ == errno_text_of(errno),
{
    format!("{}", nix::errno::Errno::from_raw(errno))
}

/// The `Display` text of `std::io::Error::from_raw_os_error(errno)`: the C
/// library's `strerror` description of the errno. That text may depend on the
/// locale, so nothing is stated of it.
#[verifier::external_body]
fn os_error_text(errno: i32) -> (r: String) {
    format!("{}", std::io::Error::from_raw_os_error(errno))
}

/// The decimal digit `d`.
pub open spec fn digit_char(d: int) -> char {
    if d == 0 {
        '0'
    } else if d == 1 {
        '1'
    } else if d == 2 {
        '2'
    } else if d == 3 {
        '3'
    } else if d == 4 {
        '4'
    } else if d == 5 {
        '5'
    } else if d == 6 {
        '6'
    } else if d == 7 {
        '7'
    } else if d == 8 {
        '8'
    } else {
        '9'
    }
}

/// The decimal digits of `n`, most significant first.
pub open spec fn decimal(n: nat) -> Seq<char>
    decreases n,
{
    if n < 10 {
        seq![digit_char(n as int)]
    } else {
        decimal(n / 10) + seq![digit_char((n % 10) as int)]
    }
}

/// `n` in decimal, with a `-` in front when negative.
pub open spec fn signed_decimal(n: int) -> Seq<char> {
    if n < 0 {
        seq!['-'] + decimal((-n) as nat)
    } else {
        decimal(n as nat)
    }
}

/// The message of a `semget` failure on `errno` described as `desc`.
pub open spec fn semget_message(errno: int, desc: Seq<char>) -> Seq<char> {
    "semget errno: "@ + signed_decimal(errno) + " ("@ + desc + ")"@
}

/// The decimal digit `d` as a string.
fn digit_str(d: u64) -> (r: &'static str)
    requires
        d < 10,
    ensures
        r@ == seq![digit_char(d as int)],
{
    proof {
        reveal_strlit("0");
        reveal_strlit("1");
        reveal_strlit("2");
        reveal_strlit("3");
        reveal_strlit("4");
        reveal_strlit("5");
        reveal_strlit("6");
        reveal_strlit("7");
        reveal_strlit("8");
        reveal_strlit("9");
    }
    if d == 0 {
        "0"
    } else if d == 1 {
        "1"
    } else if d == 2 {
        "2"
    } else if d == 3 {
        "3"
    } else if d == 4 {
        "4"
    } else if d == 5 {
        "5"
    } else if d == 6 {
        "6"
    } else if d == 7 {
        "7"
    } else if d == 8 {
        "8"
    } else {
        "9"
    }
}

/// Appends the decimal digits of `n` to `s`.
fn push_decimal(s: String, n: u64) -> (r: String)
    ensures
        r@ == s@ + decimal(n as nat),
    decreases n,
{
    if n < 10 {
        s.concat(digit_str(n))
    } else {
        let t = push_decimal(s, n / 10);
        let r = t.concat(digit_str(n % 10));
        assert(r@ =~= s@ + decimal(n as nat));
        r
    }
}

/// The message of a `semget` failure: `semget errno: <errno> (<desc>)`.
pub fn semget_text(errno: i32, desc: &str) -> (r: String)
    ensures
        r@ == semget_message(errno as int, desc@),
{
    proof {
        reveal_strlit("semget errno: ");
        reveal_strlit("semget errno: -");
        reveal_strlit(" (");
        reveal_strlit(")");
    }
    let wide = errno as i64;
    let head = if wide < 0 {
        push_decimal(String::from_str("semget errno: -"), (-wide) as u64)
    } else {
        push_decimal(String::from_str("semget errno: "), wide as u64)
    };
    let r = head.concat(" (").concat(desc).concat(")");
    assert(r@ =~= semget_message(errno as int, desc@));
    r
}

/// The error for a failed `shm_open`, given the errno's kind.
pub open spec fn shm_error_spec(
    r: InMemoryTableError,
    kind: ErrnoKind,
    name: Seq<char>,
    text: Seq<char>,
) -> bool {
    match kind {
        ErrnoKind::Exists => r matches InMemoryTableError::ShmAlreadyExists { name: n } && n@ == name,
        ErrnoKind::AccessDenied | ErrnoKind::NotPermitted => r
            == InMemoryTableError::ShmPermissionDenied,
        ErrnoKind::InvalidArgument => r matches InMemoryTableError::InvalidName { name: n } && n@
            == name,
        ErrnoKind::NoSpace => r == InMemoryTableError::ShmNoSpace,
        ErrnoKind::OutOfMemory => r == InMemoryTableError::ShmOutOfMemory,
        ErrnoKind::BadDescriptor => r == InMemoryTableError::ShmBadFileDescriptor,
        _ => r matches InMemoryTableError::ShmError(t) && t@ == text,
    }
}

/// The error for a failed `ftruncate`, given the errno's kind.
pub open spec fn ftruncate_error_spec(
    r: InMemoryTableError,
    kind: ErrnoKind,
    size: usize,
    text: Seq<char>,
) -> bool {
    match kind {
        ErrnoKind::FileTooBig => r == (InMemoryTableError::ShmTooLarge { requested: size }),
        ErrnoKind::NoSpace => r == InMemoryTableError::ShmNoSpace,
        _ => r matches InMemoryTableError::ShmError(t) && t@ == "ftruncate: "@ + text,
    }
}

/// The error for a failed `semget`, given the errno's kind (`Other` left to
/// the caller, which builds a `SemaphoreError`).
pub open spec fn semget_error_spec(
    r: InMemoryTableError,
    kind: ErrnoKind,
    key: i32,
    name: Seq<char>,
    num_sems: usize,
) -> bool {
    match kind {
        ErrnoKind::Exists => r matches InMemoryTableError::SemaphoreAlreadyExists { key: k, name: n }
            && k == key && n@ == name,
        ErrnoKind::NoSpace => r == InMemoryTableError::SemaphoreLimitReached,
        ErrnoKind::AccessDenied | ErrnoKind::NotPermitted => r
            == InMemoryTableError::SemaphorePermissionDenied,
        ErrnoKind::InvalidArgument => r == (InMemoryTableError::SemaphoreInvalidParams {
            requested: num_sems,
        }),
        ErrnoKind::OutOfMemory => r == InMemoryTableError::SemaphoreOutOfMemory,
        ErrnoKind::NotFound => r == (InMemoryTableError::SemaphoreNotExists { key }),
        _ => r is SemaphoreError,
    }
}

/// The error for a failed `semop`, given the errno's kind.
pub open spec fn semop_error_spec(kind: ErrnoKind, sem_num: usize, max: usize) -> InMemoryTableError {
    match kind {
        ErrnoKind::Removed => InMemoryTableError::SemaphoreRemoved,
        ErrnoKind::InvalidArgument | ErrnoKind::FileTooBig => InMemoryTableError::SemaphoreInvalidIndex {
            sem_num,
            max,
        },
        _ => InMemoryTableError::SemaphoreOperationFailed { sem_num },
    }
}

impl InMemoryTableError {
    /// The error for a failed `shm_open` on `name`, given the errno's kind and
    /// its description.
    pub fn from_shm_kind(kind: ErrnoKind, name: &str, text: String) -> (r: Self)
        ensures
            shm_error_spec(r, kind, name@, text@),
    {
        match kind {
            ErrnoKind::Exists => InMemoryTableError::ShmAlreadyExists { name: String::from_str(name) },
            ErrnoKind::AccessDenied | ErrnoKind::NotPermitted => InMemoryTableError::ShmPermissionDenied,
            ErrnoKind::InvalidArgument => InMemoryTableError::InvalidName { name: String::from_str(name) },
            ErrnoKind::NoSpace => InMemoryTableError::ShmNoSpace,
            ErrnoKind::OutOfMemory => InMemoryTableError::ShmOutOfMemory,
            ErrnoKind::BadDescriptor => InMemoryTableError::ShmBadFileDescriptor,
            _ => InMemoryTableError::ShmError(text),
        }
    }

    /// The error for a failed `shm_open` on `name` with raw errno `errno`.
    /// The errno's kind is `errno_kind_of(errno)`, as `nix` gives it on this
    /// target; the error is the one `from_shm_kind` gives for that kind.
    pub fn from_shm_error(errno: i32, name: &str) -> (r: Self)
        ensures
            shm_error_spec(r, errno_kind_of(errno), name@, errno_text_of(errno)),
    {
        let kind = errno_kind(errno);
        let text = errno_text(errno);
        Self::from_shm_kind(kind, name, text)
    }

    /// The error for a failed `ftruncate` to `size` bytes, given the errno's
    /// kind and its description.
    pub fn from_ftruncate_kind(kind: ErrnoKind, size: usize, text: String) -> (r: Self)
        ensures
            ftruncate_error_spec(r, kind, size, text@),
    {
        match kind {
            ErrnoKind::FileTooBig => InMemoryTableError::ShmTooLarge { requested: size },
            ErrnoKind::NoSpace => InMemoryTableError::ShmNoSpace,
            _ => InMemoryTableError::ShmError(String::from_str("ftruncate: ").concat(text.as_str())),
        }
    }

    /// The error for a failed `ftruncate` to `size` bytes with raw errno `errno`.
    /// The errno's kind is `errno_kind_of(errno)`, as `nix` gives it on this
    /// target; the error is the one `from_ftruncate_kind` gives for that kind.
    pub fn from_ftruncate_error(errno: i32, size: usize) -> (r: Self)
        ensures
            ftruncate_error_spec(r, errno_kind_of(errno), size, errno_text_of(errno)),
    {
        let kind = errno_kind(errno);
        let text = errno_text(errno);
        Self::from_ftruncate_kind(kind, size, text)
    }

    /// The error for a failed `semget` of `num_sems` semaphores under `key`
    /// for table `name`, given the errno's kind; `other` is the error for any
    /// other errno.
    pub fn from_semget_kind(kind: ErrnoKind, key: i32, name: &str, num_sems: usize, other: String) -> (r:
        Self)
        ensures
            semget_error_spec(r, kind, key, name@, num_sems),
            kind == ErrnoKind::Other || kind == ErrnoKind::BadDescriptor || kind
                == ErrnoKind::FileTooBig || kind == ErrnoKind::Removed ==> r
                == InMemoryTableError::SemaphoreError(other),
    {
        match kind {
            ErrnoKind::Exists => InMemoryTableError::SemaphoreAlreadyExists {
                key,
                name: String::from_str(name),
            },
            ErrnoKind::NoSpace => InMemoryTableError::SemaphoreLimitReached,
            ErrnoKind::AccessDenied | ErrnoKind::NotPermitted => InMemoryTableError::SemaphorePermissionDenied,
            ErrnoKind::InvalidArgument => InMemoryTableError::SemaphoreInvalidParams { requested: num_sems },
            ErrnoKind::OutOfMemory => InMemoryTableError::SemaphoreOutOfMemory,
            ErrnoKind::NotFound => InMemoryTableError::SemaphoreNotExists { key },
            _ => InMemoryTableError::SemaphoreError(other),
        }
    }

    /// The error for a failed `semget` with raw errno `errno`; for an errno
    /// of no known kind, a `SemaphoreError` whose text is
    /// `semget errno: <errno> (<description>)`, the description being the C
    /// library's.
    /// The errno's kind is `errno_kind_of(errno)`, as `nix` gives it on this
    /// target; the error is the one `from_semget_kind` gives for that kind.
    pub fn from_semget_error(errno: i32, key: i32, name: &str, num_sems: usize) -> (r: Self)
        ensures
            semget_error_spec(r, errno_kind_of(errno), key, name@, num_sems),
            r matches InMemoryTableError::SemaphoreError(t) ==> exists|desc: Seq<char>|
                #[trigger] semget_message(errno as int, desc) == t@,
    {
        let kind = errno_kind(errno);
        let desc = os_error_text(errno);
        let other = semget_text(errno, desc.as_str());
        let r = Self::from_semget_kind(kind, key, name, num_sems, other);
        proof {
            if r is SemaphoreError {
                assert(semget_message(errno as int, desc@) == other@);
            }
        }
        r
    }

    /// The error for a failed `semop` on semaphore `sem_num` of `max`, given
    /// the errno's kind.
    pub fn from_semop_kind(kind: ErrnoKind, sem_num: usize, max: usize) -> (r: Self)
        ensures
            r == semop_error_spec(kind, sem_num, max),
    {
        match kind {
            ErrnoKind::Removed => InMemoryTableError::SemaphoreRemoved,
            ErrnoKind::InvalidArgument | ErrnoKind::FileTooBig => InMemoryTableError::SemaphoreInvalidIndex {
                sem_num,
                max,
            },
            _ => InMemoryTableError::SemaphoreOperationFailed { sem_num },
        }
    }

    /// The error for a failed `semop` with raw errno `errno`.
    /// The errno's kind is `errno_kind_of(errno)`, as `nix` gives it on this
    /// target; the error is the one `from_semop_kind` gives for that kind.
    pub fn from_semop_error(errno: i32, sem_num: usize, max: usize) -> (r: Self)
        ensures
            r == semop_error_spec(errno_kind_of(errno), sem_num, max),
    {
        let kind = errno_kind(errno);
        Self::from_semop_kind(kind, sem_num, max)
    }
}

} // verus!
