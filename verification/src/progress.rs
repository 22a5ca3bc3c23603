//! The progress events of archive operations.

use crate::text::{chars_of, concat_chars, string_of};
use vstd::prelude::*;

verus! {

/// One progress event: the phase it belongs to, how far the phase has come,
/// out of how much, and a line of text for display.
#[derive(Clone, Debug)]
pub struct KrateProgress {
    /// `scan`, `pack` or `unpack`.
    pub phase: String,
    pub current: u64,
    pub total: u64,
    pub message: String,
}

/// The mathematical content of a progress event.
pub struct ProgressView {
    pub phase: Seq<char>,
    pub current: nat,
    pub total: nat,
    pub message: Seq<char>,
}

impl View for KrateProgress {
    type V = ProgressView;

    open spec fn view(&self) -> ProgressView {
        ProgressView {
            phase: self.phase@,
            current: self.current as nat,
            total: self.total as nat,
            message: self.message@,
        }
    }
}

impl KrateProgress {
    /// The event sent before the inputs are scanned: nothing is counted yet.
    pub fn scan_started() -> (r: Self)
        ensures
            r@ == (ProgressView {
                phase: "scan"@,
                current: 0,
                total: 0,
                message: "正在扫描文件..."@,
            }),
    {
        KrateProgress {
            phase: "scan".to_owned(),
            current: 0,
            total: 0,
            message: "正在扫描文件...".to_owned(),
        }
    }

    /// The event sent before the first of `total` entries is packed.
    pub fn pack_started(total: u64) -> (r: Self)
        ensures
            r@ == (ProgressView {
                phase: "pack"@,
                current: 0,
                total: total as nat,
                message: "正在打包..."@,
            }),
    {
        KrateProgress {
            phase: "pack".to_owned(),
            current: 0,
            total,
            message: "正在打包...".to_owned(),
        }
    }

    /// The event sent once the entry at `index` is packed: it counts the
    /// entries packed so far and names the one just packed.
    pub fn entry_packed(index: u64, total: u64, archive_path: &str) -> (r: Self)
        requires
            index < total,
        ensures
            r@ == (ProgressView {
                phase: "pack"@,
                current: (index + 1) as nat,
                total: total as nat,
                message: "已打包: "@ + archive_path@,
            }),
    {
        let head = chars_of("已打包: ");
        let name = chars_of(archive_path);
        let all = concat_chars(&head, &name);
        KrateProgress {
            phase: "pack".to_owned(),
            current: index + 1,
            total,
            message: string_of(&all),
        }
    }

    /// The event that ends packing: all `total` entries are packed.
    pub fn pack_finished(total: u64) -> (r: Self)
        ensures
            r@ == (ProgressView {
                phase: "pack"@,
                current: total as nat,
                total: total as nat,
                message: "打包完成"@,
            }),
    {
        KrateProgress {
            phase: "pack".to_owned(),
            current: total,
            total,
            message: "打包完成".to_owned(),
        }
    }

    /// The event sent before a container is unpacked.
    pub fn unpack_started() -> (r: Self)
        ensures
            r@ == (ProgressView {
                phase: "unpack"@,
                current: 0,
                total: 0,
                message: "正在解包..."@,
            }),
    {
        KrateProgress {
            phase: "unpack".to_owned(),
            current: 0,
            total: 0,
            message: "正在解包...".to_owned(),
        }
    }

    /// The event that ends unpacking.
    pub fn unpack_finished() -> (r: Self)
        ensures
            r@ == (ProgressView {
                phase: "unpack"@,
                current: 1,
                total: 1,
                message: "解包完成"@,
            }),
    {
        KrateProgress {
            phase: "unpack".to_owned(),
            current: 1,
            total: 1,
            message: "解包完成".to_owned(),
        }
    }
}

} // verus!
