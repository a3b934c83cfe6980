//! The messages of the block exchange protocol.

pub mod cluster;
pub mod connection;
pub mod file;
pub mod transfer;

pub use self::cluster::{ClusterConfig, ClusterConfigView, Device, DeviceView, Folder, FolderView};
pub use self::connection::{Close, CloseView, Header, HeaderView, Hello, HelloView, Ping, PingView};
pub use self::file::{
    BlockInfo, BlockInfoView, Counter, CounterView, FileInfo, FileInfoView, Index, IndexUpdate,
    IndexUpdateView, IndexView, Vector, VectorView,
};
pub use self::transfer::{
    DownloadProgress, DownloadProgressView, FileDownloadProgressUpdate,
    FileDownloadProgressUpdateView, Request, RequestView, Response, ResponseView,
};

use vstd::prelude::*;

verus! {

/// What kind of message follows a header.
#[derive(Debug, Clone, Copy, PartialEq, Eq, Structural)]
pub enum MessageType {
    ClusterConfig,
    Index,
    IndexUpdate,
    Request,
    Response,
    DownloadProgress,
    Ping,
    Close,
}

impl MessageType {
    pub open spec fn number(self) -> i32 {
        match self {
            MessageType::ClusterConfig => 0,
            MessageType::Index => 1,
            MessageType::IndexUpdate => 2,
            MessageType::Request => 3,
            MessageType::Response => 4,
            MessageType::DownloadProgress => 5,
            MessageType::Ping => 6,
            MessageType::Close => 7,
        }
    }

    /// The number that stands for the type in a header.
    pub fn to_number(self) -> (r: i32)
        ensures
            r == self.number(),
    {
        match self {
            MessageType::ClusterConfig => 0,
            MessageType::Index => 1,
            MessageType::IndexUpdate => 2,
            MessageType::Request => 3,
            MessageType::Response => 4,
            MessageType::DownloadProgress => 5,
            MessageType::Ping => 6,
            MessageType::Close => 7,
        }
    }

    /// The type that a number in a header stands for.
    pub fn from_number(n: i32) -> (r: Option<MessageType>)
        ensures
            r is Some <==> 0 <= n < 8,
            r matches Some(t) ==> t.number() == n,
    {
        match n {
            0 => Some(MessageType::ClusterConfig),
            1 => Some(MessageType::Index),
            2 => Some(MessageType::IndexUpdate),
            3 => Some(MessageType::Request),
            4 => Some(MessageType::Response),
            5 => Some(MessageType::DownloadProgress),
            6 => Some(MessageType::Ping),
            7 => Some(MessageType::Close),
            _ => None,
        }
    }
}

/// Whether the message after a header is compressed.
#[derive(Debug, Clone, Copy, PartialEq, Eq, Structural)]
pub enum MessageCompression {
    Uncompressed,
    Lz4,
}

impl MessageCompression {
    pub open spec fn number(self) -> i32 {
        match self {
            MessageCompression::Uncompressed => 0,
            MessageCompression::Lz4 => 1,
        }
    }

    /// The number that stands for the compression in a header.
    pub fn to_number(self) -> (r: i32)
        ensures
            r == self.number(),
    {
        match self {
            MessageCompression::Uncompressed => 0,
            MessageCompression::Lz4 => 1,
        }
    }

    /// The compression that a number in a header stands for.
    pub fn from_number(n: i32) -> (r: Option<MessageCompression>)
        ensures
            r is Some <==> 0 <= n < 2,
            r matches Some(c) ==> c.number() == n,
    {
        match n {
            0 => Some(MessageCompression::Uncompressed),
            1 => Some(MessageCompression::Lz4),
            _ => None,
        }
    }
}

/// Why a request was not answered with data.
#[derive(Debug, Clone, Copy, PartialEq, Eq, Structural)]
pub enum ErrorCode {
    NoError,
    Generic,
    NoSuchFile,
    InvalidFile,
}

impl ErrorCode {
    pub open spec fn number(self) -> i32 {
        match self {
            ErrorCode::NoError => 0,
            ErrorCode::Generic => 1,
            ErrorCode::NoSuchFile => 2,
            ErrorCode::InvalidFile => 3,
        }
    }

    /// The number that stands for the code in a response.
    pub fn to_number(self) -> (r: i32)
        ensures
            r == self.number(),
    {
        match self {
            ErrorCode::NoError => 0,
            ErrorCode::Generic => 1,
            ErrorCode::NoSuchFile => 2,
            ErrorCode::InvalidFile => 3,
        }
    }

    /// The code that a number in a response stands for.
    pub fn from_number(n: i32) -> (r: Option<ErrorCode>)
        ensures
            r is Some <==> 0 <= n < 4,
            r matches Some(c) ==> c.number() == n,
    {
        match n {
            0 => Some(ErrorCode::NoError),
            1 => Some(ErrorCode::Generic),
            2 => Some(ErrorCode::NoSuchFile),
            3 => Some(ErrorCode::InvalidFile),
            _ => None,
        }
    }
}

} // verus!
