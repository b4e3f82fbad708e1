//! The well-known accounts of the tip programs.

use vstd::prelude::*;

use crate::pubkey::Pubkey;

verus! {

/// The tip payment program.
///
/// In base 58: `T1pyyaTNZsKv2WcRAB8oVnk93mLJw2XzjtVYqCsaHqt`.
pub const TIP_PAYMENT_PROGRAM: [u8; 32] = [
    6, 170, 9, 84, 139, 80, 71, 106, 212, 98, 249, 31, 137, 163, 1, 80,
    51, 38, 79, 201, 171, 213, 39, 0, 32, 169, 209, 66, 51, 71, 66, 251,
];

/// The configuration account of the tip payment program.
///
/// In base 58: `HgzT81VF1xZ3FT9Eq1pHhea7Wcfq2bv4tWTP3VvJ8Y9D`.
pub const TIP_PAYMENT_CONFIG: [u8; 32] = [
    247, 249, 154, 9, 66, 250, 199, 136, 5, 73, 67, 171, 188, 249, 70, 177,
    249, 185, 22, 203, 225, 10, 237, 207, 169, 150, 118, 101, 55, 28, 162, 128,
];

/// The tip distribution program.
///
/// In base 58: `4R3gSG8BpU4t19KYj8CfnbtRpnT8gtk4dvTHxVRwc2r7`.
pub const TIP_DISTRIBUTION_PROGRAM: [u8; 32] = [
    50, 188, 7, 199, 253, 229, 63, 44, 159, 69, 138, 232, 81, 242, 88, 42,
    158, 196, 251, 0, 10, 135, 214, 103, 196, 119, 15, 22, 209, 209, 252, 156,
];

/// The configuration account of the tip distribution program.
///
/// In base 58: `STGR71TeAeycQUDKzku1GqPQdErQcTcdqxJuQmCjBu6`.
pub const TIP_DISTRIBUTION_CONFIG: [u8; 32] = [
    6, 133, 56, 19, 95, 144, 154, 4, 105, 36, 151, 3, 227, 27, 11, 35,
    60, 216, 188, 171, 90, 51, 160, 68, 81, 91, 2, 241, 107, 110, 73, 181,
];

/// An account that tips are paid to.
///
/// In base 58: `96gYZGLnJYVFmbjzopPSU6QiEV5fGqZNyN9nmNhvrZU5`.
pub const TIP_ACCOUNT_0: [u8; 32] = [
    120, 82, 28, 177, 121, 206, 187, 133, 137, 181, 86, 162, 213, 236, 148, 210,
    73, 134, 130, 253, 249, 187, 42, 245, 173, 100, 228, 145, 204, 65, 83, 218,
];

/// An account that tips are paid to.
///
/// In base 58: `HFqU5x63VTqvQss8hp11i4wVV8bD44PvwucfZ2bU7gRe`.
pub const TIP_ACCOUNT_1: [u8; 32] = [
    241, 135, 236, 135, 209, 247, 69, 203, 58, 3, 56, 74, 38, 166, 158, 218,
    12, 162, 209, 170, 15, 65, 228, 36, 22, 55, 126, 145, 255, 91, 93, 49,
];

/// An account that tips are paid to.
///
/// In base 58: `Cw8CFyM9FkoMi7K7Crf6HNQqf4uEMzpKw6QNghXLvLkY`.
pub const TIP_ACCOUNT_2: [u8; 32] = [
    177, 78, 13, 229, 94, 159, 186, 134, 57, 110, 191, 213, 72, 207, 248, 201,
    32, 17, 234, 199, 183, 91, 170, 155, 45, 156, 106, 134, 245, 161, 113, 65,
];

/// An account that tips are paid to.
///
/// In base 58: `ADaUMid9yfUytqMBgopwjb2DTLSokTSzL1zt6iGPaS49`.
pub const TIP_ACCOUNT_3: [u8; 32] = [
    136, 241, 255, 163, 162, 223, 230, 23, 189, 196, 227, 87, 50, 81, 163, 34,
    227, 252, 174, 129, 229, 164, 87, 57, 14, 100, 117, 28, 0, 164, 101, 226,
];

/// An account that tips are paid to.
///
/// In base 58: `DfXygSm4jCyNCybVYYK6DwvWqjKee8pbDmJGcLWNDXjh`.
pub const TIP_ACCOUNT_4: [u8; 32] = [
    188, 43, 87, 6, 94, 241, 221, 102, 84, 48, 190, 96, 107, 166, 89, 108,
    2, 149, 48, 27, 173, 239, 139, 90, 252, 65, 1, 65, 80, 244, 18, 116,
];

/// An account that tips are paid to.
///
/// In base 58: `ADuUkR4vqLUMWXxW9gh6D6L8pMSawimctcNZ5pGwDcEt`.
pub const TIP_ACCOUNT_5: [u8; 32] = [
    137, 7, 125, 85, 165, 187, 19, 48, 118, 62, 183, 103, 245, 94, 192, 119,
    180, 26, 13, 7, 95, 125, 225, 215, 63, 186, 202, 60, 99, 213, 84, 113,
];

/// An account that tips are paid to.
///
/// In base 58: `DttWaMuVvTiduZRnguLF7jNxTgiMBZ1hyAumKUiL2KRL`.
pub const TIP_ACCOUNT_6: [u8; 32] = [
    191, 151, 27, 89, 16, 139, 91, 133, 160, 79, 176, 147, 241, 226, 27, 78,
    63, 212, 196, 200, 244, 135, 221, 9, 185, 87, 82, 118, 159, 13, 216, 195,
];

/// An account that tips are paid to.
///
/// In base 58: `3AVi9Tg9Uo68tJfuvoKvqKNWKkC5wPdSSdeBnizKZ6jT`.
pub const TIP_ACCOUNT_7: [u8; 32] = [
    32, 38, 16, 30, 194, 3, 40, 150, 74, 50, 171, 171, 19, 108, 84, 5,
    185, 31, 58, 227, 142, 228, 246, 76, 182, 189, 232, 121, 184, 104, 56, 210,
];

/// The system program.
pub const SYSTEM_PROGRAM: [u8; 32] = [
    0, 0, 0, 0, 0, 0, 0, 0, 0, 0, 0, 0, 0, 0, 0, 0,
    0, 0, 0, 0, 0, 0, 0, 0, 0, 0, 0, 0, 0, 0, 0, 0,
];

/// The accounts that tips are paid to.
pub open spec fn tip_accounts() -> Seq<Pubkey> {
    seq![
        Pubkey { bytes: TIP_ACCOUNT_0 },
        Pubkey { bytes: TIP_ACCOUNT_1 },
        Pubkey { bytes: TIP_ACCOUNT_2 },
        Pubkey { bytes: TIP_ACCOUNT_3 },
        Pubkey { bytes: TIP_ACCOUNT_4 },
        Pubkey { bytes: TIP_ACCOUNT_5 },
        Pubkey { bytes: TIP_ACCOUNT_6 },
        Pubkey { bytes: TIP_ACCOUNT_7 },
    ]
}

/// The accounts that tips are paid to.
pub fn list_tip_accounts() -> (r: Vec<Pubkey>)
    ensures
        r@ == tip_accounts(),
{
    vec![
        Pubkey { bytes: TIP_ACCOUNT_0 },
        Pubkey { bytes: TIP_ACCOUNT_1 },
        Pubkey { bytes: TIP_ACCOUNT_2 },
        Pubkey { bytes: TIP_ACCOUNT_3 },
        Pubkey { bytes: TIP_ACCOUNT_4 },
        Pubkey { bytes: TIP_ACCOUNT_5 },
        Pubkey { bytes: TIP_ACCOUNT_6 },
        Pubkey { bytes: TIP_ACCOUNT_7 },
    ]
}

/// Whether tips are paid to an account.
pub fn is_tip_account(key: &Pubkey) -> (r: bool)
    ensures
        r == tip_accounts().contains(*key),
{
    let accounts = list_tip_accounts();
    let mut i: usize = 0;
    while i < accounts.len()
        invariant
            0 <= i <= accounts.len(),
            accounts@ == tip_accounts(),
            forall|j: int| 0 <= j < i ==> accounts@[j] != *key,
        decreases accounts.len() - i,
    {
        if accounts[i].same(key) {
            assert(accounts@[i as int] == *key);
            return true;
        }
        i = i + 1;
    }
    false
}

} // verus!
