//! What can go wrong in the file tree, named after the usual file system
//! errors.

use vstd::prelude::*;
use crate::text::{decimal, push_decimal};

verus! {

/// A file system error, with the path it is about.
#[derive(Debug, PartialEq, Eq)]
#[allow(inconsistent_fields)]
pub enum FsError {
    /// There is no such path.
    NotFound { path: String },
    /// A part of the path is not a directory.
    NotADirectory { path: String },
    /// The path is a directory, and a file is wanted.
    IsADirectory { path: String },
    /// The name is taken.
    AlreadyExists { path: String },
    /// The path names nothing that could be created or removed.
    InvalidPath { path: String },
    /// A directory entry points nowhere.
    InodeGone { ino: u64 },
}

/// What an [`FsError`] says.
#[allow(inconsistent_fields)]
pub enum FsErrorModel {
    NotFound { path: Seq<char> },
    NotADirectory { path: Seq<char> },
    IsADirectory { path: Seq<char> },
    AlreadyExists { path: Seq<char> },
    InvalidPath { path: Seq<char> },
    InodeGone { ino: u64 },
}

impl View for FsError {
    type V = FsErrorModel;

    open spec fn view(&self) -> FsErrorModel {
        match *self {
            FsError::NotFound { path } => FsErrorModel::NotFound { path: path@ },
            FsError::NotADirectory { path } => FsErrorModel::NotADirectory { path: path@ },
            FsError::IsADirectory { path } => FsErrorModel::IsADirectory { path: path@ },
            FsError::AlreadyExists { path } => FsErrorModel::AlreadyExists { path: path@ },
            FsError::InvalidPath { path } => FsErrorModel::InvalidPath { path: path@ },
            FsError::InodeGone { ino } => FsErrorModel::InodeGone { ino },
        }
    }
}

/// The message of an error.
pub open spec fn fs_error_text(e: FsErrorModel) -> Seq<char> {
    match e {
        FsErrorModel::NotFound { path } => "路径不存在："@ + path,
        FsErrorModel::NotADirectory { path } => "路径组件不是目录："@ + path,
        FsErrorModel::IsADirectory { path } => "目标是目录："@ + path,
        FsErrorModel::AlreadyExists { path } => "已存在："@ + path,
        FsErrorModel::InvalidPath { path } => "非法路径："@ + path,
        FsErrorModel::InodeGone { ino } => "inode 失踪（内部错误）："@ + decimal(ino as nat),
    }
}

impl FsError {
    /// The error as a message.
    #[must_use]
    pub fn to_text(&self) -> (s: String)
        ensures
            s@ == fs_error_text(self@),
    {
        let mut s = String::new();
        match self {
            FsError::NotFound { path } => {
                s.append("路径不存在：");
                s.append(path.as_str());
            },
            FsError::NotADirectory { path } => {
                s.append("路径组件不是目录：");
                s.append(path.as_str());
            },
            FsError::IsADirectory { path } => {
                s.append("目标是目录：");
                s.append(path.as_str());
            },
            FsError::AlreadyExists { path } => {
                s.append("已存在：");
                s.append(path.as_str());
            },
            FsError::InvalidPath { path } => {
                s.append("非法路径：");
                s.append(path.as_str());
            },
            FsError::InodeGone { ino } => {
                s.append("inode 失踪（内部错误）：");
                push_decimal(&mut s, *ino as u128);
            },
        }
        assert(s@ =~= fs_error_text(self@));
        s
    }
}

/// The message of an error names the path that it is about.
pub proof fn law_message_names_the_path(path: Seq<char>, other: Seq<char>)
    ensures
        fs_error_text(FsErrorModel::NotFound { path }) == "路径不存在："@ + path,
        fs_error_text(FsErrorModel::NotFound { path }) == fs_error_text(
            FsErrorModel::NotFound { path: other },
        ) ==> path == other,
        fs_error_text(FsErrorModel::NotADirectory { path }) == fs_error_text(
            FsErrorModel::NotADirectory { path: other },
        ) ==> path == other,
        fs_error_text(FsErrorModel::IsADirectory { path }) == fs_error_text(
            FsErrorModel::IsADirectory { path: other },
        ) ==> path == other,
        fs_error_text(FsErrorModel::AlreadyExists { path }) == fs_error_text(
            FsErrorModel::AlreadyExists { path: other },
        ) ==> path == other,
        fs_error_text(FsErrorModel::InvalidPath { path }) == fs_error_text(
            FsErrorModel::InvalidPath { path: other },
        ) ==> path == other,
{
    lemma_same_front("路径不存在："@, path, other);
    lemma_same_front("路径组件不是目录："@, path, other);
    lemma_same_front("目标是目录："@, path, other);
    lemma_same_front("已存在："@, path, other);
    lemma_same_front("非法路径："@, path, other);
}

proof fn lemma_same_front(front: Seq<char>, a: Seq<char>, b: Seq<char>)
    ensures
        front + a == front + b ==> a == b,
{
    assert((front + a).skip(front.len() as int) =~= a);
    assert((front + b).skip(front.len() as int) =~= b);
}

} // verus!
