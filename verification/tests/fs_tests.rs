use smithy::anvil::RegionFile;
use smithy::codec::CompressionType;
use smithy::fs::{SmithyFs, DeletionInfo, S_IFREG};
use smithy::inode::{EACCES, EBADF, EEXIST, EFBIG, ENOENT, ENOSYS, ENOTDIR, EPERM, EROFS, ROOT_INO};
use smithy::names::FileKind;

fn region_with_one_chunk(x: u8, z: u8) -> RegionFile {
    let mut region = RegionFile::new(vec![0u8; 8192]);
    region.write_chunk(x, z, &[0xAA, 0xBB], CompressionType::Zlib, 1_700_000_000);
    region
}

fn writable_fs(x: u8, z: u8) -> SmithyFs {
    SmithyFs::new(region_with_one_chunk(x, z), 1000, 1000, true)
}

#[test]
fn lookup_finds_both_files_of_a_chunk() {
    let mut fs = writable_fs(7, 7);
    let attr = fs.lookup(ROOT_INO, b"x7z7.nbt").unwrap();
    assert_eq!(attr.size, 2);
    assert_eq!(attr.mtime, 1_700_000_000);
    assert_eq!(attr.perm, 0o644);
    let attr = fs.lookup(ROOT_INO, b"x7z7.cmp").unwrap();
    assert_eq!(
        attr.size,
        b"gzip [zlib] none lz4 zstd unknown(#)\n".len() as u64
    );
    assert_eq!(fs.lookup(ROOT_INO, b"x0z0.nbt").unwrap_err(), ENOENT);
    assert_eq!(fs.lookup(ROOT_INO, b"nonsense").unwrap_err(), ENOENT);
    assert_eq!(fs.lookup(99, b"x7z7.nbt").unwrap_err(), ENOENT);
}

#[test]
fn unlink_removes_both_names_and_reports_them() {
    let mut fs = writable_fs(7, 7);
    let chunk_ino = fs.lookup(ROOT_INO, b"x7z7.nbt").unwrap().ino;
    let info_ino = fs.lookup(ROOT_INO, b"x7z7.cmp").unwrap().ino;

    let deletions = fs.unlink(ROOT_INO, b"x7z7.nbt").unwrap();
    assert_eq!(deletions.len(), 2);
    assert_eq!(
        deletions[0],
        DeletionInfo { ino: chunk_ino, x: 7, z: 7, kind: FileKind::Chunk }
    );
    assert_eq!(
        deletions[1],
        DeletionInfo { ino: info_ino, x: 7, z: 7, kind: FileKind::CompressionInfo }
    );

    assert_eq!(fs.lookup(ROOT_INO, b"x7z7.nbt").unwrap_err(), ENOENT);
    assert_eq!(fs.lookup(ROOT_INO, b"x7z7.cmp").unwrap_err(), ENOENT);
}

#[test]
fn unlink_refuses_selector_files_and_unknown_names() {
    let mut fs = writable_fs(7, 7);
    assert_eq!(fs.unlink(ROOT_INO, b"x7z7.cmp").unwrap_err(), EACCES);
    assert_eq!(fs.unlink(ROOT_INO, b"x1z1.nbt").unwrap_err(), ENOENT);
    assert_eq!(fs.unlink(5, b"x7z7.nbt").unwrap_err(), ENOENT);
    // the chunk is still reachable
    assert!(fs.lookup(ROOT_INO, b"x7z7.nbt").is_ok());
}

#[test]
fn inode_outlives_unlink_until_forgotten() {
    let mut fs = writable_fs(7, 7);
    let ino = fs.lookup(ROOT_INO, b"x7z7.nbt").unwrap().ino;
    fs.unlink(ROOT_INO, b"x7z7.nbt").unwrap();
    // one kernel lookup is still outstanding, so the inode survives
    let attr = fs.getattr(ino).unwrap();
    assert_eq!(attr.nlink, 0);
    // the last forget discards it
    fs.forget(ino, 1);
    assert_eq!(fs.getattr(ino).unwrap_err(), ENOENT);
}

#[test]
fn open_handles_keep_an_unlinked_inode_alive() {
    let mut fs = writable_fs(7, 7);
    let ino = fs.lookup(ROOT_INO, b"x7z7.nbt").unwrap().ino;
    let fh = fs.open(ino, 0).unwrap();
    fs.forget(ino, 1);
    fs.unlink(ROOT_INO, b"x7z7.nbt").unwrap();
    // the open handle still reads the data
    assert_eq!(fs.read(ino, fh, 0, 10).unwrap(), vec![0xAA, 0xBB]);
    // closing it discards the inode
    fs.release(ino, fh).unwrap();
    assert_eq!(fs.getattr(ino).unwrap_err(), ENOENT);
}

#[test]
fn getattr_reports_root_and_missing() {
    let fs = writable_fs(7, 7);
    let root = fs.getattr(ROOT_INO).unwrap();
    assert!(root.is_dir);
    assert_eq!(root.perm, 0o755);
    assert_eq!(root.nlink, 2);
    assert_eq!(fs.getattr(424242).unwrap_err(), ENOENT);

    let ro = SmithyFs::new(region_with_one_chunk(7, 7), 0, 0, false);
    assert_eq!(ro.getattr(ROOT_INO).unwrap().perm, 0o555);
}

#[test]
fn readdir_lists_dots_and_every_linked_name() {
    let mut fs = writable_fs(7, 7);
    let fh = fs.opendir(ROOT_INO).unwrap();
    let entries = fs.readdir(ROOT_INO, fh, 0).unwrap();
    assert_eq!(entries.len(), 4);
    assert_eq!(entries[0].name, b".".to_vec());
    assert_eq!(entries[1].name, b"..".to_vec());
    assert_eq!(entries[2].name, b"x7z7.nbt".to_vec());
    assert_eq!(entries[3].name, b"x7z7.cmp".to_vec());
    assert_eq!(entries[3].next_offset, 4);
    // resuming from an offset skips what was already reported
    let rest = fs.readdir(ROOT_INO, fh, 2).unwrap();
    assert_eq!(rest.len(), 2);
    assert_eq!(rest[0].name, b"x7z7.nbt".to_vec());
    // closing the handle invalidates it
    fs.releasedir(fh).unwrap();
    assert_eq!(fs.readdir(ROOT_INO, fh, 0).unwrap_err(), EBADF);
    assert_eq!(fs.releasedir(fh).unwrap_err(), EBADF);
    assert_eq!(fs.opendir(77).unwrap_err(), ENOTDIR);
}

#[test]
fn mknod_creates_an_empty_pair() {
    let mut fs = writable_fs(7, 7);
    let attr = fs.mknod(ROOT_INO, b"x3z5.nbt", S_IFREG | 0o644, 42).unwrap();
    assert_eq!(attr.size, 0);
    assert_eq!(attr.mtime, 42);
    // the selector starts at the sentinel
    let info = fs.lookup(ROOT_INO, b"x3z5.cmp").unwrap();
    let fh = fs.open(info.ino, 0).unwrap();
    assert_eq!(
        fs.read(info.ino, fh, 0, 100).unwrap(),
        b"gzip zlib none lz4 zstd [unknown(42)]\n".to_vec()
    );

    assert_eq!(
        fs.mknod(ROOT_INO, b"x3z5.nbt", S_IFREG, 43).unwrap_err(),
        EEXIST
    );
    assert_eq!(fs.mknod(ROOT_INO, b"x3z5", S_IFREG, 43).unwrap_err(), EINVAL_V);
    assert_eq!(fs.mknod(ROOT_INO, b"x4z5.nbt", 0o020000, 43).unwrap_err(), EPERM);
    assert_eq!(fs.mknod(9, b"x4z5.nbt", S_IFREG, 43).unwrap_err(), ENOENT);

    let mut ro = SmithyFs::new(region_with_one_chunk(7, 7), 0, 0, false);
    assert_eq!(ro.mknod(ROOT_INO, b"x4z5.nbt", S_IFREG, 43).unwrap_err(), EROFS);
}

const EINVAL_V: i32 = smithy::inode::EINVAL;

#[test]
fn write_and_read_chunk_bytes() {
    let mut fs = writable_fs(7, 7);
    let ino = fs.lookup(ROOT_INO, b"x7z7.nbt").unwrap().ino;
    let wfh = fs.open(ino, 1).unwrap();
    assert_eq!(fs.write(ino, wfh, 4, &[1, 2, 3]).unwrap(), 3);
    // the gap between the old end and the write is zero-filled
    let rfh = fs.open(ino, 0).unwrap();
    assert_eq!(
        fs.read(ino, rfh, 0, 100).unwrap(),
        vec![0xAA, 0xBB, 0, 0, 1, 2, 3]
    );
    // a write-only handle cannot read, and the other way round
    assert_eq!(fs.read(ino, wfh, 0, 4).unwrap_err(), EACCES);
    assert_eq!(fs.write(ino, rfh, 0, &[0]).unwrap_err(), EACCES);
    assert_eq!(fs.read(ino, 999, 0, 4).unwrap_err(), EBADF);
    assert_eq!(fs.write(ino, wfh, -1, &[0]).unwrap_err(), EINVAL_V);
}

#[test]
fn selector_writes_must_parse() {
    let mut fs = writable_fs(7, 7);
    let ino = fs.lookup(ROOT_INO, b"x7z7.cmp").unwrap().ino;
    let fh = fs.open(ino, 2).unwrap();
    assert_eq!(fs.write(ino, fh, 0, b"[zstd]\n").unwrap(), 7);
    assert_eq!(
        fs.read(ino, fh, 0, 100).unwrap(),
        b"gzip zlib none lz4 [zstd] unknown(#)\n".to_vec()
    );
    assert_eq!(fs.write(ino, fh, 0, b"gibberish").unwrap_err(), EINVAL_V);
    assert_eq!(fs.write(ino, fh, 1, b"zlib").unwrap_err(), EINVAL_V);
    assert_eq!(fs.write(ino, fh, 0, &[0xff, 0xfe]).unwrap_err(), EINVAL_V);
}

#[test]
fn read_only_mount_refuses_writes() {
    let mut fs = SmithyFs::new(region_with_one_chunk(7, 7), 0, 0, false);
    let ino = fs.lookup(ROOT_INO, b"x7z7.nbt").unwrap().ino;
    assert_eq!(fs.open(ino, 1).unwrap_err(), EROFS);
    assert_eq!(fs.open(ino, 2).unwrap_err(), EROFS);
    // a read-only open that asks to truncate is refused outright
    assert_eq!(fs.open(ino, 512).unwrap_err(), EACCES);
    let fh = fs.open(ino, 0).unwrap();
    assert_eq!(fs.write(ino, fh, 0, &[1]).unwrap_err(), EROFS);
    assert_eq!(fs.setattr_size(ino, Some(0), None).unwrap_err(), EROFS);
}

#[test]
fn truncate_resizes_chunks_and_skips_selectors() {
    let mut fs = writable_fs(7, 7);
    let ino = fs.lookup(ROOT_INO, b"x7z7.nbt").unwrap().ino;
    let attr = fs.setattr_size(ino, Some(5), None).unwrap();
    assert_eq!(attr.size, 5);
    let fh = fs.open(ino, 0).unwrap();
    assert_eq!(fs.read(ino, fh, 0, 10).unwrap(), vec![0xAA, 0xBB, 0, 0, 0]);
    assert_eq!(fs.setattr_size(ino, Some(1), None).unwrap().size, 1);
    assert_eq!(
        fs.setattr_size(ino, Some(1 << 40), None).unwrap_err(),
        EFBIG
    );
    assert_eq!(fs.setattr_size(ino, None, None).unwrap_err(), ENOSYS);

    let info = fs.lookup(ROOT_INO, b"x7z7.cmp").unwrap();
    let same = fs.setattr_size(info.ino, Some(0), None).unwrap();
    assert_eq!(same.size, info.size);
}

#[test]
fn oversized_file_write_is_refused() {
    let mut fs = writable_fs(7, 7);
    let ino = fs.lookup(ROOT_INO, b"x7z7.nbt").unwrap().ino;
    let fh = fs.open(ino, 1).unwrap();
    let big = vec![0u8; 4096];
    assert_eq!(
        fs.write(ino, fh, (smithy::anvil::MAX_CHUNK_LEN - 4096) as i64, &big)
            .unwrap_err(),
        EFBIG
    );
}
