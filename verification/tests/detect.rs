//! Telling filesystems apart.

use luks_core::error::LuksError;
use luks_core::fs::btrfs::crc32c::crc32c_seed;
use luks_core::fs::detect::{
    detect, FsKind, EXT4_RO_COMPAT_METADATA_CSUM, EXT4_SUPERBLOCK_OFFSET, EXT4_SUPERBLOCK_SIZE,
};
use luks_core::fs::ext4::volume::EXT4_MAGIC;

/// Builds a valid minimal ext4 superblock in an image of `size` bytes.
fn valid_fake_ext4(size: usize) -> Vec<u8> {
    let mut disk = vec![0u8; size];
    let sb = &mut disk[EXT4_SUPERBLOCK_OFFSET as usize..EXT4_SUPERBLOCK_OFFSET as usize + EXT4_SUPERBLOCK_SIZE];
    // inodes_count > 0
    sb[0..4].copy_from_slice(&100u32.to_le_bytes());
    // blocks_count > 0 (8 blocks of 1024 = 8192 bytes, fits within device len)
    sb[4..8].copy_from_slice(&8u32.to_le_bytes());
    // log_block_size = 0 (1024 bytes)
    sb[24..28].copy_from_slice(&0u32.to_le_bytes());
    // blocks_per_group > 0
    sb[32..36].copy_from_slice(&8u32.to_le_bytes());
    // inodes_per_group > 0
    sb[40..44].copy_from_slice(&100u32.to_le_bytes());
    // magic = 0xEF53 at offset 56
    sb[56..58].copy_from_slice(&EXT4_MAGIC.to_le_bytes());
    // rev_level = 1
    sb[76..80].copy_from_slice(&1u32.to_le_bytes());
    // inode_size = 256 (>= 128)
    sb[88..90].copy_from_slice(&256u16.to_le_bytes());
    // feature_ro_compat = 0 (no metadata_csum)
    sb[100..104].copy_from_slice(&0u32.to_le_bytes());
    disk
}

/// Builds a valid ext4 superblock with a verified metadata_csum.
fn valid_ext4_with_csum(size: usize) -> Vec<u8> {
    let mut disk = valid_fake_ext4(size);
    let sb_start = EXT4_SUPERBLOCK_OFFSET as usize;
    // Enable metadata_csum
    disk[sb_start + 100..sb_start + 104]
        .copy_from_slice(&EXT4_RO_COMPAT_METADATA_CSUM.to_le_bytes());
    // Calculate CRC32c checksum over [..0x3FC] with seed !0
    let csum = crc32c_seed(!0, &disk[sb_start..sb_start + 0x3FC]);
    disk[sb_start + 0x3FC..sb_start + 0x400].copy_from_slice(&csum.to_le_bytes());
    disk
}

#[test]
fn an_ext4_signature_is_recognised() {
    let disk = valid_fake_ext4(8192);
    assert_eq!(detect(&disk).unwrap(), FsKind::Ext4);
}

#[test]
fn ext4_with_valid_metadata_csum_is_recognised() {
    let disk = valid_ext4_with_csum(8192);
    assert_eq!(detect(&disk).unwrap(), FsKind::Ext4);
}

#[test]
fn ext4_with_corrupt_metadata_csum_is_rejected() {
    let mut disk = valid_ext4_with_csum(8192);
    let sb_start = EXT4_SUPERBLOCK_OFFSET as usize;
    // Corrupt a byte in the superblock
    disk[sb_start + 10] ^= 0xFF;
    assert!(matches!(detect(&disk), Err(LuksError::UnknownFs)));
}

#[test]
fn stray_ext4_magic_with_zeroes_is_rejected() {
    let mut disk = vec![0u8; 8192];
    let magic_offset = (EXT4_SUPERBLOCK_OFFSET + 56) as usize;
    disk[magic_offset..magic_offset + 2].copy_from_slice(&EXT4_MAGIC.to_le_bytes());
    assert!(matches!(detect(&disk), Err(LuksError::UnknownFs)));
}

#[test]
fn stray_ext4_magic_with_random_bytes_is_rejected() {
    let mut disk = vec![0u8; 8192];
    for (i, b) in disk.iter_mut().enumerate() {
        *b = (i % 251) as u8;
    }
    let magic_offset = (EXT4_SUPERBLOCK_OFFSET + 56) as usize;
    disk[magic_offset..magic_offset + 2].copy_from_slice(&EXT4_MAGIC.to_le_bytes());
    assert!(matches!(detect(&disk), Err(LuksError::UnknownFs)));
}

#[test]
fn ext4_invalid_geometry_rejected() {
    let sb_start = EXT4_SUPERBLOCK_OFFSET as usize;

    // 1. log_block_size > 6
    let mut disk = valid_fake_ext4(8192);
    disk[sb_start + 24..sb_start + 28].copy_from_slice(&7u32.to_le_bytes());
    assert!(matches!(detect(&disk), Err(LuksError::UnknownFs)));

    // 2. inodes_count == 0
    let mut disk = valid_fake_ext4(8192);
    disk[sb_start..sb_start + 4].copy_from_slice(&0u32.to_le_bytes());
    assert!(matches!(detect(&disk), Err(LuksError::UnknownFs)));

    // 3. blocks_count == 0
    let mut disk = valid_fake_ext4(8192);
    disk[sb_start + 4..sb_start + 8].copy_from_slice(&0u32.to_le_bytes());
    assert!(matches!(detect(&disk), Err(LuksError::UnknownFs)));

    // 4. blocks_per_group == 0
    let mut disk = valid_fake_ext4(8192);
    disk[sb_start + 32..sb_start + 36].copy_from_slice(&0u32.to_le_bytes());
    assert!(matches!(detect(&disk), Err(LuksError::UnknownFs)));

    // 5. inodes_per_group == 0
    let mut disk = valid_fake_ext4(8192);
    disk[sb_start + 40..sb_start + 44].copy_from_slice(&0u32.to_le_bytes());
    assert!(matches!(detect(&disk), Err(LuksError::UnknownFs)));

    // 6. inode_size < 128 on revision >= 1
    let mut disk = valid_fake_ext4(8192);
    disk[sb_start + 88..sb_start + 90].copy_from_slice(&64u16.to_le_bytes());
    assert!(matches!(detect(&disk), Err(LuksError::UnknownFs)));

    // 7. blocks_count * block_size wildly exceeds device length
    let mut disk = valid_fake_ext4(8192);
    disk[sb_start + 4..sb_start + 8].copy_from_slice(&10_000u32.to_le_bytes());
    assert!(matches!(detect(&disk), Err(LuksError::UnknownFs)));
}

#[test]
fn an_empty_volume_is_neither() {
    let disk = vec![0u8; 8192];
    assert!(matches!(detect(&disk), Err(LuksError::UnknownFs)));
}

#[test]
fn random_data_returns_unknown_fs() {
    let mut disk = vec![0u8; 65536];
    for (i, b) in disk.iter_mut().enumerate() {
        *b = ((i * 101 + 37) % 256) as u8;
    }
    assert!(matches!(detect(&disk), Err(LuksError::UnknownFs)));
}

#[test]
fn lvm_pv_header_returns_unknown_fs() {
    let mut disk = vec![0u8; 4096];
    disk[512..520].copy_from_slice(b"LABELONE");
    assert!(matches!(detect(&disk), Err(LuksError::UnknownFs)));
}

#[test]
fn swap_header_returns_unknown_fs() {
    let mut disk = vec![0u8; 8192];
    disk[4086..4096].copy_from_slice(b"SWAPSPACE2");
    assert!(matches!(detect(&disk), Err(LuksError::UnknownFs)));
}

#[test]
fn fat32_boot_sector_returns_unsupported_fs() {
    let mut disk = vec![0u8; 512];
    disk[510] = 0x55;
    disk[511] = 0xAA;
    disk[0x52..0x5A].copy_from_slice(b"FAT32   ");
    let err = detect(&disk).unwrap_err();
    assert!(matches!(err, LuksError::UnsupportedFs("FAT32")));
}

#[test]
fn fat16_boot_sector_returns_unsupported_fs() {
    let mut disk = vec![0u8; 512];
    disk[510] = 0x55;
    disk[511] = 0xAA;
    disk[0x36..0x3E].copy_from_slice(b"FAT16   ");
    let err = detect(&disk).unwrap_err();
    assert!(matches!(err, LuksError::UnsupportedFs("FAT32")));
}

#[test]
fn fat12_boot_sector_returns_unsupported_fs() {
    let mut disk = vec![0u8; 512];
    disk[510] = 0x55;
    disk[511] = 0xAA;
    disk[0x36..0x3E].copy_from_slice(b"FAT12   ");
    let err = detect(&disk).unwrap_err();
    assert!(matches!(err, LuksError::UnsupportedFs("FAT32")));
}

#[test]
fn exfat_boot_sector_returns_unsupported_fs() {
    let mut disk = vec![0u8; 512];
    disk[3..11].copy_from_slice(b"EXFAT   ");
    let err = detect(&disk).unwrap_err();
    assert!(matches!(err, LuksError::UnsupportedFs("exFAT")));
}

#[test]
fn ntfs_boot_sector_returns_unsupported_fs() {
    let mut disk = vec![0u8; 512];
    disk[3..11].copy_from_slice(b"NTFS    ");
    let err = detect(&disk).unwrap_err();
    assert!(matches!(err, LuksError::UnsupportedFs("NTFS")));
}

#[test]
fn xfs_superblock_returns_unsupported_fs() {
    let mut disk = vec![0u8; 512];
    disk[0..4].copy_from_slice(b"XFSB");
    let err = detect(&disk).unwrap_err();
    assert!(matches!(err, LuksError::UnsupportedFs("XFS")));
}

/// Stray bytes do not pass for btrfs.
#[test]
fn a_stray_two_byte_pattern_is_not_mistaken_for_btrfs() {
    let mut disk = vec![0u8; 0x2_0000];
    for (i, b) in disk.iter_mut().enumerate() {
        *b = (i % 251) as u8;
    }
    assert!(!matches!(detect(&disk), Ok(FsKind::Btrfs)));
}
