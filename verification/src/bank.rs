//! Shared-memory bank models: how many banks there are and how wide each is.
use crate::error::{res_view, BankError, BankErrorView};
use crate::text::{ascii_lowercase, chars_of, str_eq, to_ascii_lowercase, trim, trim_span};
use vstd::prelude::*;

verus! {

#[derive(Debug, Clone, Copy, PartialEq, Eq, Hash, Structural)]
pub struct BankModel {
    pub bank_count: u32,
    pub bank_width_bytes: u32,
}

/// The bank model of NVIDIA GPUs (and of the AMD preset): 32 banks of 4 bytes.
pub open spec fn preset_32x4() -> BankModel {
    BankModel { bank_count: 32, bank_width_bytes: 4 }
}

pub open spec fn bank_model_error(reason: Seq<char>) -> BankErrorView {
    BankErrorView::InvalidBankModel { reason }
}

/// What `BankModel::new` gives: both numbers must be non-zero.
pub open spec fn new_bank_model_spec(bank_count: u32, bank_width_bytes: u32) -> Result<
    BankModel,
    BankErrorView,
> {
    if bank_count == 0 {
        Err(bank_model_error("bank count must be greater than 0"@))
    } else if bank_width_bytes == 0 {
        Err(bank_model_error("bank width bytes must be greater than 0"@))
    } else {
        Ok(BankModel { bank_count, bank_width_bytes })
    }
}

/// The preset that an architecture name (trimmed, in lower case) selects.
pub open spec fn arch_preset(t: Seq<char>) -> Result<BankModel, BankErrorView> {
    if t == "nvidia"@ {
        Ok(preset_32x4())
    } else if t == "amd"@ || t == "amd-cdna"@ || t == "cdna"@ || t == "rdna"@ {
        Ok(preset_32x4())
    } else {
        Err(bank_model_error("unknown arch `"@ + t + "`: expected `nvidia` or `amd`"@))
    }
}

/// What `BankModel::from_arch_or_override` gives: the preset of the architecture
/// (NVIDIA when none is named), then each override that is given, which must be non-zero.
pub open spec fn from_arch_spec(arch: Option<Seq<char>>, banks: Option<u32>, bank_width: Option<
    u32,
>) -> Result<BankModel, BankErrorView> {
    let preset = match arch {
        None => Ok(preset_32x4()),
        Some(a) => arch_preset(ascii_lowercase(trim(a))),
    };
    match preset {
        Err(e) => Err(e),
        Ok(model) => if banks == Some(0u32) {
            Err(bank_model_error("bank count must be greater than 0"@))
        } else if bank_width == Some(0u32) {
            Err(bank_model_error("bank width must be greater than 0"@))
        } else {
            Ok(
                BankModel {
                    bank_count: match banks {
                        Some(b) => b,
                        None => model.bank_count,
                    },
                    bank_width_bytes: match bank_width {
                        Some(w) => w,
                        None => model.bank_width_bytes,
                    },
                },
            )
        },
    }
}

/// The bank that serves a byte address: banks are interleaved word by word.
pub open spec fn bank_of(m: BankModel, byte_address: u64) -> u32
    recommends
        m.bank_count > 0,
        m.bank_width_bytes > 0,
{
    ((byte_address / (m.bank_width_bytes as u64)) % (m.bank_count as u64)) as u32
}

pub open spec fn opt_view(arch: Option<&str>) -> Option<Seq<char>> {
    match arch {
        Some(a) => Some(a@),
        None => None,
    }
}

impl BankModel {
    pub open spec fn well_formed(self) -> bool {
        self.bank_count > 0 && self.bank_width_bytes > 0
    }

    /// Builds a bank model; neither the count nor the width may be zero.
    pub fn new(bank_count: u32, bank_width_bytes: u32) -> (r: Result<Self, BankError>)
        ensures
            res_view(r) == new_bank_model_spec(bank_count, bank_width_bytes),
    {
        if bank_count == 0 {
            return Err(
                BankError::InvalidBankModel {
                    reason: String::from_str("bank count must be greater than 0"),
                },
            );
        }
        if bank_width_bytes == 0 {
            return Err(
                BankError::InvalidBankModel {
                    reason: String::from_str("bank width bytes must be greater than 0"),
                },
            );
        }
        Ok(BankModel { bank_count, bank_width_bytes })
    }

    /// The NVIDIA preset: 32 banks of 4 bytes.
    pub fn nvidia() -> (r: Self)
        ensures
            r == preset_32x4(),
    {
        BankModel { bank_count: 32, bank_width_bytes: 4 }
    }

    /// The AMD preset: 32 banks of 4 bytes.
    pub fn amd() -> (r: Self)
        ensures
            r == preset_32x4(),
    {
        BankModel { bank_count: 32, bank_width_bytes: 4 }
    }

    /// The preset of an architecture name, with the bank count and width overridden
    /// where they are given.
    pub fn from_arch_or_override(arch: Option<&str>, banks: Option<u32>, bank_width: Option<u32>) -> (r:
        Result<Self, BankError>)
        ensures
            res_view(r) == from_arch_spec(opt_view(arch), banks, bank_width),
    {
        let mut model = match arch {
            None => BankModel::nvidia(),
            Some(a) => {
                let v = chars_of(a);
                let (lo, hi) = trim_span(&v, 0, v.len());
                assert(v@.subrange(0, v@.len() as int) =~= a@);
                let lower = to_ascii_lowercase(a.substring_char(lo, hi));
                let t = lower.as_str();
                if str_eq(t, "nvidia") {
                    BankModel::nvidia()
                } else if str_eq(t, "amd") || str_eq(t, "amd-cdna") || str_eq(t, "cdna")
                    || str_eq(t, "rdna") {
                    BankModel::amd()
                } else {
                    let mut reason = String::from_str("unknown arch `");
                    reason.append(t);
                    reason.append("`: expected `nvidia` or `amd`");
                    return Err(BankError::InvalidBankModel { reason });
                }
            },
        };
        if let Some(b) = banks {
            if b == 0 {
                return Err(
                    BankError::InvalidBankModel {
                        reason: String::from_str("bank count must be greater than 0"),
                    },
                );
            }
            model.bank_count = b;
        }
        if let Some(w) = bank_width {
            if w == 0 {
                return Err(
                    BankError::InvalidBankModel {
                        reason: String::from_str("bank width must be greater than 0"),
                    },
                );
            }
            model.bank_width_bytes = w;
        }
        Ok(model)
    }

    /// The bank that serves a byte address.
    pub fn bank_for_byte_address(&self, byte_address: u64) -> (r: u32)
        requires
            self.well_formed(),
        ensures
            r == bank_of(*self, byte_address),
            r < self.bank_count,
    {
        let width = self.bank_width_bytes as u64;
        let count = self.bank_count as u64;
        ((byte_address / width) % count) as u32
    }
}

/// Banks are interleaved word by word: every byte of the `k`-th word of
/// `bank_width_bytes` bytes, the addresses `k * w .. (k + 1) * w`, is served by bank
/// `k % bank_count`.
pub proof fn lemma_bank_words(m: BankModel, k: int, addr: u64)
    requires
        m.well_formed(),
        0 <= k,
        k * m.bank_width_bytes <= addr < (k + 1) * m.bank_width_bytes,
    ensures
        bank_of(m, addr) == k % (m.bank_count as int),
{
    let w = m.bank_width_bytes as int;
    assert((k + 1) * w == k * w + w) by (nonlinear_arith);
    vstd::arithmetic::div_mod::lemma_fundamental_div_mod_converse(
        addr as int,
        w,
        k,
        addr - k * w,
    );
}

/// The next word goes to the next bank, wrapping round after the last one.
pub proof fn lemma_bank_next_word(m: BankModel, addr: u64)
    requires
        m.well_formed(),
        addr + m.bank_width_bytes <= u64::MAX,
    ensures
        bank_of(m, (addr + m.bank_width_bytes) as u64) == (bank_of(m, addr) + 1) % (
        m.bank_count as int),
{
    let w = m.bank_width_bytes as int;
    let k = addr as int / w;
    vstd::arithmetic::div_mod::lemma_fundamental_div_mod(addr as int, w);
    vstd::arithmetic::div_mod::lemma_mod_pos_bound(addr as int, w);
    vstd::arithmetic::div_mod::lemma_div_pos_is_pos(addr as int, w);
    assert(w * k == k * w) by (nonlinear_arith);
    assert((k + 1) * w == k * w + w) by (nonlinear_arith);
    lemma_bank_words(m, k, addr);
    assert((k + 1) * w == k * w + w) by (nonlinear_arith);
    assert((k + 2) * w == k * w + w + w) by (nonlinear_arith);
    lemma_bank_words(m, k + 1, (addr + m.bank_width_bytes) as u64);
    let c = m.bank_count as int;
    vstd::arithmetic::div_mod::lemma_add_mod_noop(k, 1, c);
    vstd::arithmetic::div_mod::lemma_add_mod_noop(k % c, 1, c);
    vstd::arithmetic::div_mod::lemma_mod_twice(k, c);
    vstd::arithmetic::div_mod::lemma_mod_twice(1, c);
}

/// Each architecture name, in any ASCII case and with any surrounding white space,
/// selects 32 banks of 4 bytes, as does naming none; a bank count or width that
/// is given, and not zero, replaces the preset's.
pub proof fn lemma_arch_presets(arch: Option<Seq<char>>, banks: Option<u32>, bank_width: Option<u32>)
    requires
        arch matches Some(a) ==> {
            let t = ascii_lowercase(trim(a));
            ||| t == "nvidia"@
            ||| t == "amd"@
            ||| t == "amd-cdna"@
            ||| t == "cdna"@
            ||| t == "rdna"@
        },
        banks != Some(0u32),
        bank_width != Some(0u32),
    ensures
        from_arch_spec(arch, banks, bank_width) == Ok::<BankModel, BankErrorView>(
            BankModel {
                bank_count: match banks {
                    Some(b) => b,
                    None => 32,
                },
                bank_width_bytes: match bank_width {
                    Some(w) => w,
                    None => 4,
                },
            },
        ),
{
}

} // verus!
