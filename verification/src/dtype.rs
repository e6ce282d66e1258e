//! Element data types and their sizes.
use crate::error::{res_view, BankError, BankErrorView};
use crate::text::{
    ascii_lowercase, chars_of, is_ws, str_eq, to_ascii_lowercase, trim, trim_end,
    trim_span, trim_start,
};
use vstd::prelude::*;

verus! {

#[derive(Debug, Clone, Copy, PartialEq, Eq, Hash, Structural)]
pub enum DataType {
    F16,
    BF16,
    F32,
    F64,
    I8,
    I16,
    I32,
}

pub open spec fn size_bytes_spec(d: DataType) -> u64 {
    match d {
        DataType::I8 => 1,
        DataType::F16 | DataType::BF16 | DataType::I16 => 2,
        DataType::F32 | DataType::I32 => 4,
        DataType::F64 => 8,
    }
}

pub open spec fn name_text(d: DataType) -> Seq<char> {
    match d {
        DataType::F16 => "f16"@,
        DataType::BF16 => "bf16"@,
        DataType::F32 => "f32"@,
        DataType::F64 => "f64"@,
        DataType::I8 => "i8"@,
        DataType::I16 => "i16"@,
        DataType::I32 => "i32"@,
    }
}

/// The data type that a name (already trimmed and in lower case) stands for.
pub open spec fn dtype_of_name(t: Seq<char>) -> Option<DataType> {
    if t == "f16"@ || t == "fp16"@ || t == "half"@ {
        Some(DataType::F16)
    } else if t == "bf16"@ || t == "bfloat16"@ {
        Some(DataType::BF16)
    } else if t == "f32"@ || t == "fp32"@ || t == "float"@ {
        Some(DataType::F32)
    } else if t == "f64"@ || t == "fp64"@ || t == "double"@ {
        Some(DataType::F64)
    } else if t == "i8"@ || t == "int8"@ {
        Some(DataType::I8)
    } else if t == "i16"@ || t == "int16"@ {
        Some(DataType::I16)
    } else if t == "i32"@ || t == "int32"@ {
        Some(DataType::I32)
    } else {
        None
    }
}

/// What parsing `s` as a data type gives: the name is read without surrounding
/// white space and without regard to ASCII case.
pub open spec fn parse_dtype_spec(s: Seq<char>) -> Result<DataType, BankErrorView> {
    match dtype_of_name(ascii_lowercase(trim(s))) {
        Some(d) => Ok(d),
        None => Err(BankErrorView::InvalidDataType { raw: s }),
    }
}

impl DataType {
    /// The size of one element in bytes.
    pub fn size_bytes(&self) -> (r: u64)
        ensures
            r == size_bytes_spec(*self),
    {
        match self {
            DataType::I8 => 1,
            DataType::F16 | DataType::BF16 | DataType::I16 => 2,
            DataType::F32 | DataType::I32 => 4,
            DataType::F64 => 8,
        }
    }

    /// The canonical lower-case name.
    pub fn name(&self) -> (r: &'static str)
        ensures
            r@ == name_text(*self),
    {
        match self {
            DataType::F16 => "f16",
            DataType::BF16 => "bf16",
            DataType::F32 => "f32",
            DataType::F64 => "f64",
            DataType::I8 => "i8",
            DataType::I16 => "i16",
            DataType::I32 => "i32",
        }
    }

    /// Reads a data type from its name or one of its aliases.
    pub fn parse(s: &str) -> (r: Result<DataType, BankError>)
        ensures
            res_view(r) == parse_dtype_spec(s@),
    {
        let v = chars_of(s);
        let (lo, hi) = trim_span(&v, 0, v.len());
        assert(v@.subrange(0, v@.len() as int) =~= s@);
        let lower = to_ascii_lowercase(s.substring_char(lo, hi));
        let t = lower.as_str();
        let d = if str_eq(t, "f16") || str_eq(t, "fp16") || str_eq(t, "half") {
            DataType::F16
        } else if str_eq(t, "bf16") || str_eq(t, "bfloat16") {
            DataType::BF16
        } else if str_eq(t, "f32") || str_eq(t, "fp32") || str_eq(t, "float") {
            DataType::F32
        } else if str_eq(t, "f64") || str_eq(t, "fp64") || str_eq(t, "double") {
            DataType::F64
        } else if str_eq(t, "i8") || str_eq(t, "int8") {
            DataType::I8
        } else if str_eq(t, "i16") || str_eq(t, "int16") {
            DataType::I16
        } else if str_eq(t, "i32") || str_eq(t, "int32") {
            DataType::I32
        } else {
            return Err(BankError::InvalidDataType { raw: String::from_str(s) });
        };
        Ok(d)
    }
}

impl std::str::FromStr for DataType {
    type Err = BankError;

    fn from_str(s: &str) -> (r: Result<DataType, BankError>)
        ensures
            res_view(r) == parse_dtype_spec(s@),
    {
        DataType::parse(s)
    }
}

proof fn lemma_plain_word(w: Seq<char>)
    requires
        w.len() > 0,
        forall|i: int| 0 <= i < w.len() ==> ('a' <= #[trigger] w[i] <= 'z' || '0' <= w[i] <= '9'),
    ensures
        trim(w) == w,
        ascii_lowercase(w) == w,
{
    assert(!is_ws(w[0]));
    assert(!is_ws(w.last()));
    assert(trim_start(w, None) == w);
    assert(trim_end(w, None) == w);
    assert(ascii_lowercase(w) =~= w);
}

/// Each data type's canonical name reads back as that data type.
pub proof fn lemma_name_parses_back(d: DataType)
    ensures
        parse_dtype_spec(name_text(d)) == Ok::<DataType, BankErrorView>(d),
{
    reveal_strlit("f16");
    reveal_strlit("fp16");
    reveal_strlit("half");
    reveal_strlit("bf16");
    reveal_strlit("bfloat16");
    reveal_strlit("f32");
    reveal_strlit("fp32");
    reveal_strlit("float");
    reveal_strlit("f64");
    reveal_strlit("fp64");
    reveal_strlit("double");
    reveal_strlit("i8");
    reveal_strlit("int8");
    reveal_strlit("i16");
    reveal_strlit("int16");
    reveal_strlit("i32");
    reveal_strlit("int32");
    let w = name_text(d);
    lemma_plain_word(w);
    match d {
        DataType::F16 => {},
        DataType::BF16 => {
            assert(w != "f16"@ && w != "fp16"@ && w != "half"@) by {
                assert(w[0] != "f16"@[0]);
                assert(w[0] != "half"@[0]);
            }
        },
        DataType::F32 => {
            assert(w != "f16"@ && w != "fp16"@ && w != "half"@ && w != "bf16"@ && w != "bfloat16"@) by {
                assert(w[1] != "f16"@[1]);
            }
        },
        DataType::F64 => {
            assert(w != "f16"@ && w != "fp16"@ && w != "half"@ && w != "bf16"@ && w != "bfloat16"@
                && w != "f32"@ && w != "fp32"@ && w != "float"@) by {
                assert(w[1] != "f16"@[1]);
                assert(w[1] != "f32"@[1]);
            }
        },
        DataType::I8 => {
            assert(w[0] != 'f' && w[0] != 'h' && w[0] != 'b' && w[0] != 'd');
            assert(w != "f16"@ && w != "fp16"@ && w != "half"@ && w != "bf16"@ && w != "bfloat16"@
                && w != "f32"@ && w != "fp32"@ && w != "float"@ && w != "f64"@ && w != "fp64"@
                && w != "double"@) by {
                assert(w[0] != "f16"@[0]);
                assert(w[0] != "half"@[0]);
                assert(w[0] != "bf16"@[0]);
                assert(w[0] != "double"@[0]);
            }
        },
        DataType::I16 => {
            assert(w != "f16"@ && w != "fp16"@ && w != "half"@ && w != "bf16"@ && w != "bfloat16"@
                && w != "f32"@ && w != "fp32"@ && w != "float"@ && w != "f64"@ && w != "fp64"@
                && w != "double"@ && w != "i8"@ && w != "int8"@) by {
                assert(w[0] != "f16"@[0]);
                assert(w[0] != "half"@[0]);
                assert(w[0] != "bf16"@[0]);
                assert(w[0] != "double"@[0]);
                assert(w[1] != "int8"@[1]);
            }
        },
        DataType::I32 => {
            assert(w != "f16"@ && w != "fp16"@ && w != "half"@ && w != "bf16"@ && w != "bfloat16"@
                && w != "f32"@ && w != "fp32"@ && w != "float"@ && w != "f64"@ && w != "fp64"@
                && w != "double"@ && w != "i8"@ && w != "int8"@ && w != "i16"@ && w != "int16"@) by {
                assert(w[0] != "f16"@[0]);
                assert(w[0] != "half"@[0]);
                assert(w[0] != "bf16"@[0]);
                assert(w[0] != "double"@[0]);
                assert(w[1] != "int8"@[1]);
                assert(w[1] != "i16"@[1]);
            }
        },
    }
}

/// The spellings that read as a data type once trimmed and put in ASCII lower
/// case: its name, then its aliases.
pub open spec fn spellings(d: DataType) -> Seq<Seq<char>> {
    match d {
        DataType::F16 => seq!["f16"@, "fp16"@, "half"@],
        DataType::BF16 => seq!["bf16"@, "bfloat16"@],
        DataType::F32 => seq!["f32"@, "fp32"@, "float"@],
        DataType::F64 => seq!["f64"@, "fp64"@, "double"@],
        DataType::I8 => seq!["i8"@, "int8"@],
        DataType::I16 => seq!["i16"@, "int16"@],
        DataType::I32 => seq!["i32"@, "int32"@],
    }
}

#[verifier::spinoff_prover]
proof fn lemma_spelling_names(w: Seq<char>, d: DataType)
    ensures
        spellings(d).contains(w) <==> dtype_of_name(w) == Some(d),
{
    reveal_strlit("f16");
    reveal_strlit("fp16");
    reveal_strlit("half");
    reveal_strlit("bf16");
    reveal_strlit("bfloat16");
    reveal_strlit("f32");
    reveal_strlit("fp32");
    reveal_strlit("float");
    reveal_strlit("f64");
    reveal_strlit("fp64");
    reveal_strlit("double");
    reveal_strlit("i8");
    reveal_strlit("int8");
    reveal_strlit("i16");
    reveal_strlit("int16");
    reveal_strlit("i32");
    reveal_strlit("int32");
    let sp = spellings(d);
    if dtype_of_name(w) == Some(d) {
        match d {
            DataType::F16 => {
                if w == "f16"@ { assert(sp[0] == w); }
                else if w == "fp16"@ { assert(sp[1] == w); }
                else { assert(sp[2] == w); }
            },
            DataType::BF16 => {
                if w == "bf16"@ { assert(sp[0] == w); } else { assert(sp[1] == w); }
            },
            DataType::F32 => {
                if w == "f32"@ { assert(sp[0] == w); }
                else if w == "fp32"@ { assert(sp[1] == w); }
                else { assert(sp[2] == w); }
            },
            DataType::F64 => {
                if w == "f64"@ { assert(sp[0] == w); }
                else if w == "fp64"@ { assert(sp[1] == w); }
                else { assert(sp[2] == w); }
            },
            DataType::I8 => {
                if w == "i8"@ { assert(sp[0] == w); } else { assert(sp[1] == w); }
            },
            DataType::I16 => {
                if w == "i16"@ { assert(sp[0] == w); } else { assert(sp[1] == w); }
            },
            DataType::I32 => {
                if w == "i32"@ { assert(sp[0] == w); } else { assert(sp[1] == w); }
            },
        }
    }
    if sp.contains(w) {
        let k = choose|k: int| 0 <= k < sp.len() && sp[k] == w;
        // distinct spellings differ in their length or in one of their first four characters
        assert(w.len() > 0);
        let c0 = w[0];
        if w.len() > 1 {
            let c1 = w[1];
        }
        if w.len() > 2 {
            let c2 = w[2];
        }
        if w.len() > 3 {
            let c3 = w[3];
        }
        assert(dtype_of_name(w) == Some(d));
    }
}

/// A text reads as data type `d` exactly when, trimmed of white space and put
/// in ASCII lower case, it is `d`'s name or one of its aliases; any other text is
/// refused as an invalid data type that names the text as given.
pub proof fn lemma_dtype_text(t: Seq<char>, d: DataType)
    ensures
        parse_dtype_spec(t) == Ok::<DataType, BankErrorView>(d) <==> spellings(d).contains(
            ascii_lowercase(trim(t)),
        ),
        parse_dtype_spec(t) is Err ==> parse_dtype_spec(t) == Err::<DataType, BankErrorView>(
            BankErrorView::InvalidDataType { raw: t },
        ),
{
    lemma_spelling_names(ascii_lowercase(trim(t)), d);
}

/// Each element's size is its width in bytes: 1 for `i8`; 2 for `f16`, `bf16`
/// and `i16`; 4 for `f32` and `i32`; 8 for `f64`.
pub proof fn lemma_element_sizes()
    ensures
        size_bytes_spec(DataType::I8) == 1,
        size_bytes_spec(DataType::F16) == 2,
        size_bytes_spec(DataType::BF16) == 2,
        size_bytes_spec(DataType::I16) == 2,
        size_bytes_spec(DataType::F32) == 4,
        size_bytes_spec(DataType::I32) == 4,
        size_bytes_spec(DataType::F64) == 8,
{
}

} // verus!
