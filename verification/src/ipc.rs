use vstd::prelude::*;

verus! {

/// Bytes of the length header that comes before each packet.
pub const HEADER_SIZE: usize = 8;

/// Errors of the channel between the plugin and the interface.
pub enum IpcError {
    EndOfFile,
    Interrupted,
    PollingReceiveFragmented,
    PollingReceiveTooLarge,
    Io(std::io::Error),
}

/// How the channel tells I/O errors apart.
#[derive(Clone, Copy, Debug, PartialEq, Eq, Structural)]
pub enum IoErrorClass {
    WouldBlock,
    Interrupted,
    UnexpectedEof,
    Other,
}

/// The value of eight bytes read as a little-endian number.
pub open spec fn le_u64(b: Seq<u8>) -> int {
    b[0] + 0x100 * b[1] + 0x1_0000 * b[2] + 0x100_0000 * b[3] + 0x1_0000_0000 * b[4] + 0x100_0000_0000
        * b[5] + 0x1_0000_0000_0000 * b[6] + 0x100_0000_0000_0000 * b[7]
}

/// The length of the packet at the front of `view`, its header included,
/// or why no whole packet can be taken from it: nothing left to read, a
/// packet still arriving, or one longer than the buffer.
pub open spec fn packet_result(view: Seq<u8>, buf_capacity: int) -> Result<int, IpcError> {
    if view.len() == 0 {
        Err(IpcError::EndOfFile)
    } else if view.len() < 8 {
        Err(IpcError::PollingReceiveFragmented)
    } else if le_u64(view) + 8 > buf_capacity {
        Err(IpcError::PollingReceiveTooLarge)
    } else if view.len() < le_u64(view) + 8 {
        Err(IpcError::PollingReceiveFragmented)
    } else {
        Ok(le_u64(view) + 8)
    }
}

/// The length of the packet at the front of the buffered bytes `view`, its
/// header included, or why none can be taken yet.
pub fn packet_size(view: &[u8], buf_capacity: usize) -> (r: Result<usize, IpcError>)
    requires
        view@.len() >= 8 ==> le_u64(view@) + 8 <= usize::MAX,
    ensures
        match (r, packet_result(view@, buf_capacity as int)) {
            (Ok(n), Ok(m)) => n == m,
            (Err(IpcError::EndOfFile), Err(IpcError::EndOfFile)) => true,
            (Err(IpcError::PollingReceiveFragmented), Err(IpcError::PollingReceiveFragmented)) => true,
            (Err(IpcError::PollingReceiveTooLarge), Err(IpcError::PollingReceiveTooLarge)) => true,
            _ => false,
        },
{
    if view.len() == 0 {
        return Err(IpcError::EndOfFile);
    }
    if view.len() < HEADER_SIZE {
        return Err(IpcError::PollingReceiveFragmented);
    }
    let size: u64 = view[0] as u64 + 0x100 * (view[1] as u64) + 0x1_0000 * (view[2] as u64) + 0x100_0000
        * (view[3] as u64) + 0x1_0000_0000 * (view[4] as u64) + 0x100_0000_0000 * (view[5] as u64)
        + 0x1_0000_0000_0000 * (view[6] as u64) + 0x100_0000_0000_0000 * (view[7] as u64);
    let packet_size = (size as usize) + HEADER_SIZE;
    if packet_size > buf_capacity {
        return Err(IpcError::PollingReceiveTooLarge);
    }
    if view.len() < packet_size {
        return Err(IpcError::PollingReceiveFragmented);
    }
    Ok(packet_size)
}

/// What taking a packet from the buffered bytes gives, for every input: the
/// end of the stream when nothing is buffered; a packet announced longer
/// than the buffer can hold is too large however many of its bytes have
/// arrived; a whole packet that fits is taken, header included; and only a
/// header or a packet that can still fit and has not fully arrived is
/// still arriving.
pub proof fn law_packet_result(view: Seq<u8>, buf_capacity: int)
    ensures
        view.len() == 0 <==> packet_result(view, buf_capacity) matches Err(IpcError::EndOfFile),
        view.len() >= 8 && le_u64(view) + 8 > buf_capacity ==> packet_result(view, buf_capacity) matches Err(
            IpcError::PollingReceiveTooLarge,
        ),
        packet_result(view, buf_capacity) matches Err(IpcError::PollingReceiveTooLarge) ==> view.len() >= 8
            && le_u64(view) + 8 > buf_capacity,
        view.len() >= 8 && le_u64(view) + 8 <= buf_capacity && le_u64(view) + 8 <= view.len() ==> packet_result(
            view,
            buf_capacity,
        ) == Ok::<int, IpcError>(le_u64(view) + 8),
        packet_result(view, buf_capacity) matches Ok(n) ==> n == le_u64(view) + 8 && 8 <= n <= view.len() && n
            <= buf_capacity,
        packet_result(view, buf_capacity) matches Err(IpcError::PollingReceiveFragmented) <==> (0 < view.len() < 8
            || (view.len() >= 8 && le_u64(view) + 8 <= buf_capacity && view.len() < le_u64(view) + 8)),
{
    if view.len() >= 8 {
        assert(le_u64(view) >= 0) by (nonlinear_arith)
            requires
                view[0] >= 0,
                view[1] >= 0,
                view[2] >= 0,
                view[3] >= 0,
                view[4] >= 0,
                view[5] >= 0,
                view[6] >= 0,
                view[7] >= 0,
        ;
    }
}

/// The error that an I/O error of the given class becomes.
pub open spec fn io_error_variant(class: IoErrorClass) -> int {
    match class {
        IoErrorClass::Interrupted => 1,
        IoErrorClass::UnexpectedEof => 0,
        _ => 4,
    }
}

/// Which of the channel's variants an error is.
pub open spec fn variant_of(e: IpcError) -> int {
    match e {
        IpcError::EndOfFile => 0,
        IpcError::Interrupted => 1,
        IpcError::PollingReceiveFragmented => 2,
        IpcError::PollingReceiveTooLarge => 3,
        IpcError::Io(_) => 4,
    }
}

/// The class of an I/O error's kind: would-block, interrupted, unexpected
/// end of file, or any other.
pub uninterp spec fn io_error_class_of(err: std::io::Error) -> IoErrorClass;

/// `std::io::Error::kind`, sorted into the classes the channel tells
/// apart. The kind is the error's own, so the class is a function of the
/// error; which kinds an error of the operating system maps to is left to
/// the standard library, so no clause says which class a given error has.
#[verifier::external_body]
fn io_error_class(err: &std::io::Error) -> (c: IoErrorClass)
    ensures
        c == io_error_class_of(*err),
{
    match err.kind() {
        std::io::ErrorKind::WouldBlock => IoErrorClass::WouldBlock,
        std::io::ErrorKind::Interrupted => IoErrorClass::Interrupted,
        std::io::ErrorKind::UnexpectedEof => IoErrorClass::UnexpectedEof,
        _ => IoErrorClass::Other,
    }
}

impl IpcError {
    /// An I/O error of the given class: interruptions and early ends keep
    /// their names, every other error is carried as it is.
    pub fn from_classified(err: std::io::Error, class: IoErrorClass) -> (e: IpcError)
        ensures
            variant_of(e) == io_error_variant(class),
            e matches IpcError::Io(inner) ==> inner == err,
    {
        match class {
            IoErrorClass::Interrupted => IpcError::Interrupted,
            IoErrorClass::UnexpectedEof => IpcError::EndOfFile,
            _ => IpcError::Io(err),
        }
    }

    /// The channel error for an I/O error.
    pub fn from_io(err: std::io::Error) -> (e: IpcError)
        ensures
            variant_of(e) == io_error_variant(io_error_class_of(err)),
            e matches IpcError::Io(inner) ==> inner == err,
    {
        let class = io_error_class(&err);
        IpcError::from_classified(err, class)
    }

    /// Whether a failed read only means that nothing has arrived yet.
    pub fn is_retry(class: IoErrorClass) -> (b: bool)
        ensures
            b == (class == IoErrorClass::WouldBlock || class == IoErrorClass::Interrupted),
    {
        match class {
            IoErrorClass::WouldBlock | IoErrorClass::Interrupted => true,
            _ => false,
        }
    }

    /// The class of an I/O error, as the channel sorts them.
    pub fn classify(err: &std::io::Error) -> (c: IoErrorClass)
        ensures
            c == io_error_class_of(*err),
    {
        io_error_class(err)
    }
}

} // verus!
