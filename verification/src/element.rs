//! The numeric types that arrays and tensors hold.
use crate::text::{decimal, same_text};
use vstd::prelude::*;

verus! {

/// The type of the values in an array.
#[derive(Clone, Copy, Debug, PartialEq, Eq, Structural)]
pub enum ElementType {
    UInt8,
    UInt16,
    UInt32,
    UInt64,
    Float16,
    Float32,
    Float64,
    /// Any type that vectors are not made of.
    Other,
}

/// The type that goes by a name.
pub open spec fn element_named(label: Seq<char>) -> ElementType {
    if label == "UInt8"@ {
        ElementType::UInt8
    } else if label == "UInt16"@ {
        ElementType::UInt16
    } else if label == "UInt32"@ {
        ElementType::UInt32
    } else if label == "UInt64"@ {
        ElementType::UInt64
    } else if label == "Float16"@ {
        ElementType::Float16
    } else if label == "Float32"@ {
        ElementType::Float32
    } else if label == "Float64"@ {
        ElementType::Float64
    } else {
        ElementType::Other
    }
}

impl ElementType {
    /// The name of a type that vectors are made of.
    pub open spec fn label(self) -> Seq<char> {
        match self {
            ElementType::UInt8 => "UInt8"@,
            ElementType::UInt16 => "UInt16"@,
            ElementType::UInt32 => "UInt32"@,
            ElementType::UInt64 => "UInt64"@,
            ElementType::Float16 => "Float16"@,
            ElementType::Float32 => "Float32"@,
            ElementType::Float64 => "Float64"@,
            ElementType::Other => "Other"@,
        }
    }

    /// How many bytes a value takes.
    pub open spec fn width(self) -> nat {
        match self {
            ElementType::UInt8 => 1,
            ElementType::UInt16 => 2,
            ElementType::UInt32 => 4,
            ElementType::UInt64 => 8,
            ElementType::Float16 => 2,
            ElementType::Float32 => 4,
            ElementType::Float64 => 8,
            ElementType::Other => 0,
        }
    }

    /// The name of a type that vectors are made of.
    pub fn name(self) -> (s: &'static str)
        ensures
            s@ == self.label(),
    {
        match self {
            ElementType::UInt8 => "UInt8",
            ElementType::UInt16 => "UInt16",
            ElementType::UInt32 => "UInt32",
            ElementType::UInt64 => "UInt64",
            ElementType::Float16 => "Float16",
            ElementType::Float32 => "Float32",
            ElementType::Float64 => "Float64",
            ElementType::Other => "Other",
        }
    }

    /// How many bytes a value takes.
    pub fn byte_width(self) -> (w: usize)
        ensures
            w == self.width(),
    {
        match self {
            ElementType::UInt8 => 1,
            ElementType::UInt16 => 2,
            ElementType::UInt32 => 4,
            ElementType::UInt64 => 8,
            ElementType::Float16 => 2,
            ElementType::Float32 => 4,
            ElementType::Float64 => 8,
            ElementType::Other => 0,
        }
    }

    /// The type that goes by a name.
    pub fn named(label: &str) -> (r: ElementType)
        ensures
            r == element_named(label@),
    {
        if same_text(label, "UInt8") {
            ElementType::UInt8
        } else if same_text(label, "UInt16") {
            ElementType::UInt16
        } else if same_text(label, "UInt32") {
            ElementType::UInt32
        } else if same_text(label, "UInt64") {
            ElementType::UInt64
        } else if same_text(label, "Float16") {
            ElementType::Float16
        } else if same_text(label, "Float32") {
            ElementType::Float32
        } else if same_text(label, "Float64") {
            ElementType::Float64
        } else {
            ElementType::Other
        }
    }

    /// The name of a type leads back to it.
    pub proof fn lemma_named(self)
        ensures
            element_named(self.label()) == self,
    {
        reveal_strlit("UInt8");
        reveal_strlit("UInt16");
        reveal_strlit("UInt32");
        reveal_strlit("UInt64");
        reveal_strlit("Float16");
        reveal_strlit("Float32");
        reveal_strlit("Float64");
        reveal_strlit("Other");
        assert("UInt16"@[4] != "UInt32"@[4]);
        assert("UInt16"@[4] != "UInt64"@[4] || "UInt16"@[5] != "UInt64"@[5]);
        assert("UInt32"@[4] != "UInt64"@[4]);
        assert("Float16"@[5] != "Float32"@[5]);
        assert("Float16"@[6] == '6' && "Float64"@[6] == '4');
        assert("Float32"@[5] != "Float64"@[5]);
        assert("UInt16"@[0] != 'F' && "Other"@[0] != 'U' && "UInt8"@[0] == 'U');
    }
}

/// A type goes by its own name and by no other.
pub proof fn lemma_type_by_name(label: &str, r: ElementType)
    requires
        call_ensures(ElementType::named, (label,), r),
    ensures
        r is UInt8 <==> label@ == "UInt8"@,
        r is UInt16 <==> label@ == "UInt16"@,
        r is UInt32 <==> label@ == "UInt32"@,
        r is UInt64 <==> label@ == "UInt64"@,
        r is Float16 <==> label@ == "Float16"@,
        r is Float32 <==> label@ == "Float32"@,
        r is Float64 <==> label@ == "Float64"@,
{
    ElementType::UInt8.lemma_named();
    ElementType::UInt16.lemma_named();
    ElementType::UInt32.lemma_named();
    ElementType::UInt64.lemma_named();
    ElementType::Float16.lemma_named();
    ElementType::Float32.lemma_named();
    ElementType::Float64.lemma_named();
}

/// The name of a type says whether it is of integers or of floating-point numbers, and
/// how many bits a value has: eight for each of its bytes.
pub proof fn lemma_name_tells_width(element: ElementType, name: &'static str, bytes: usize)
    requires
        call_ensures(ElementType::name, (element,), name),
        call_ensures(ElementType::byte_width, (element,), bytes),
        !(element is Other),
    ensures
        name@ == (if element is Float16 || element is Float32 || element is Float64 {
            "Float"@
        } else {
            "UInt"@
        }) + decimal((8 * bytes) as nat),
        bytes == 1 || bytes == 2 || bytes == 4 || bytes == 8,
        element is Float16 ==> bytes == 2,
        element is Float32 ==> bytes == 4,
        element is Float64 ==> bytes == 8,
{
    reveal_strlit("UInt8");
    reveal_strlit("UInt16");
    reveal_strlit("UInt32");
    reveal_strlit("UInt64");
    reveal_strlit("Float16");
    reveal_strlit("Float32");
    reveal_strlit("Float64");
    reveal_strlit("UInt");
    reveal_strlit("Float");
    reveal_with_fuel(decimal, 3);
    assert(decimal(8) =~= seq!['8']);
    assert(decimal(16) =~= seq!['1', '6']);
    assert(decimal(32) =~= seq!['3', '2']);
    assert(decimal(64) =~= seq!['6', '4']);
    assert("UInt8"@ =~= "UInt"@ + seq!['8']);
    assert("UInt16"@ =~= "UInt"@ + seq!['1', '6']);
    assert("UInt32"@ =~= "UInt"@ + seq!['3', '2']);
    assert("UInt64"@ =~= "UInt"@ + seq!['6', '4']);
    assert("Float16"@ =~= "Float"@ + seq!['1', '6']);
    assert("Float32"@ =~= "Float"@ + seq!['3', '2']);
    assert("Float64"@ =~= "Float"@ + seq!['6', '4']);
}

} // verus!
