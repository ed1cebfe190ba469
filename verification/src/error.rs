//! The errors of the store.
use vstd::prelude::*;

verus! {

/// Why a request was refused.
#[derive(Clone, Copy, Debug, PartialEq, Eq, Structural)]
pub enum StoreError {
    /// The arity of the tree is not a power of two of at least two.
    Arity,
    /// The tree has fewer leafs than one node has children.
    LeafMismatch,
    /// A binary tree whose number of leafs is not a power of two.
    LeafsNotPow2,
    /// No complete tree of the given arity has the given length.
    TreeLength,
    /// So many rows are to be discarded that only the base would be left.
    DiscardsAllRows,
    /// The number of leafs is not a power of two.
    RowCount,
    /// The file is as large neither as the base row and the cached rows nor as the cached
    /// rows alone.
    InconsistentSize,
    /// The file beside a reader is not as large as the cached rows.
    StoreSize { found: usize, expected: usize },
    /// The first byte asked for lies behind the elements in the store.
    StartOutOfRange { start: usize, len: usize },
    /// The last byte asked for lies behind the elements in the store.
    EndOutOfRange { end: usize, len: usize },
    /// The bytes asked for begin in a discarded row.
    OutOfBounds,
    /// The bytes asked for into a buffer begin in a discarded row.
    InvalidReadStart,
    /// The bytes of one of several ranges could not be read.
    ReadRange,
    /// The data to store are not whole elements.
    DataSize { multiple_of: usize },
    /// The buffer to store is not whole elements.
    BufSize { multiple_of: usize },
    /// The bytes to store do not fit in the file.
    SliceTooLarge { max: usize },
    /// The file has no room for another element.
    NotEnoughSpace { len: usize, elem_len: usize, store_size: usize },
    /// The file is shorter than what is to be removed from its front.
    TruncationLength,
    /// Not all bytes behind the removed front were copied.
    CopyIncomplete,
    /// A layer cannot be cut into chunks of whole groups of nodes.
    ChunkSize,
    /// The hashes of a chunk are not as long as its nodes call for.
    HashedNodeLength,
    /// The tree to build has a number of branches that is not a power of two.
    Branches,
    /// The store does not hold the leafs that the tree is to be built over.
    InconsistentData,
    /// The tree is to be built over an odd number of leafs.
    OddLeafs,
    /// A tree is to be built without a configuration.
    MissingConfig,
    /// The tree that was built has not as many elements as its leafs call for.
    BuiltLength,
    /// The tree that was built has not as many rows as it should have.
    BuiltRowCount,
    /// A store of this kind is compact already.
    CannotCompact,
}

/// The sign for a number below ten.
pub open spec fn digit(n: nat) -> char {
    if n == 0 {
        '0'
    } else if n == 1 {
        '1'
    } else if n == 2 {
        '2'
    } else if n == 3 {
        '3'
    } else if n == 4 {
        '4'
    } else if n == 5 {
        '5'
    } else if n == 6 {
        '6'
    } else if n == 7 {
        '7'
    } else if n == 8 {
        '8'
    } else {
        '9'
    }
}

/// A number in decimal notation.
pub open spec fn decimal(n: nat) -> Seq<char>
    decreases n,
{
    if n < 10 {
        seq![digit(n)]
    } else {
        decimal(n / 10).push(digit(n % 10))
    }
}

/// Writes a number below ten.
fn digit_str(n: usize) -> (r: &'static str)
    requires
        n < 10,
    ensures
        r@ == seq![digit(n as nat)],
{
    proof {
        reveal_strlit("0");
        reveal_strlit("1");
        reveal_strlit("2");
        reveal_strlit("3");
        reveal_strlit("4");
        reveal_strlit("5");
        reveal_strlit("6");
        reveal_strlit("7");
        reveal_strlit("8");
        reveal_strlit("9");
    }
    if n == 0 {
        "0"
    } else if n == 1 {
        "1"
    } else if n == 2 {
        "2"
    } else if n == 3 {
        "3"
    } else if n == 4 {
        "4"
    } else if n == 5 {
        "5"
    } else if n == 6 {
        "6"
    } else if n == 7 {
        "7"
    } else if n == 8 {
        "8"
    } else {
        "9"
    }
}

/// Writes a number in decimal notation.
fn to_decimal(n: usize) -> (r: String)
    ensures
        r@ == decimal(n as nat),
    decreases n,
{
    if n < 10 {
        String::from_str(digit_str(n))
    } else {
        let mut text = to_decimal(n / 10);
        text.append(digit_str(n % 10));
        text
    }
}

impl StoreError {
    /// What the error tells the user.
    pub open spec fn text(self) -> Seq<char> {
        match self {
            StoreError::Arity => "branches must be a power of 2"@,
            StoreError::LeafMismatch => "leaf and branch mis-match"@,
            StoreError::LeafsNotPow2 => "leafs must be a power of 2"@,
            StoreError::TreeLength => "Invalid tree length provided for the specified arity"@,
            StoreError::DiscardsAllRows => "Cannot discard all rows except for the base"@,
            StoreError::RowCount => "Inconsistent merkle tree row_count detected"@,
            StoreError::InconsistentSize => "Inconsistent store size detected"@,
            StoreError::StoreSize { found, expected } => "Inconsistent store size detected with external reader ("@
                + decimal(found as nat)
                + " != "@
                + decimal(expected as nat)
                + ")"@,
            StoreError::StartOutOfRange { start, len } => "start out of range "@
                + decimal(start as nat)
                + " >= "@
                + decimal(len as nat),
            StoreError::EndOutOfRange { end, len } => "end out of range "@
                + decimal(end as nat)
                + " > "@
                + decimal(len as nat),
            StoreError::OutOfBounds => "out of bounds"@,
            StoreError::InvalidReadStart => "Invalid read start"@,
            StoreError::ReadRange => "fail to read range"@,
            StoreError::DataSize { multiple_of } => "data size must be a multiple of "@
                + decimal(multiple_of as nat),
            StoreError::BufSize { multiple_of } => "buf size must be a multiple of "@
                + decimal(multiple_of as nat),
            StoreError::SliceTooLarge { max } => "Requested slice too large (max: "@
                + decimal(max as nat)
                + ")"@,
            StoreError::NotEnoughSpace { len, elem_len, store_size } => "not enough space, len: "@
                + decimal(len as nat)
                + ", E size "@
                + decimal(elem_len as nat)
                + ", store len "@
                + decimal(store_size as nat),
            StoreError::TruncationLength => "Invalid truncation length"@,
            StoreError::CopyIncomplete => "Failed to copy all data"@,
            StoreError::ChunkSize => "Invalid chunk size"@,
            StoreError::HashedNodeLength => "Invalid hashed node length"@,
            StoreError::Branches => "branches MUST be a power of 2"@,
            StoreError::InconsistentData => "Inconsistent data"@,
            StoreError::OddLeafs => "Leafs must be a power of two"@,
            StoreError::MissingConfig => "LevelCacheStore build requires a valid config"@,
            StoreError::BuiltLength => "Invalid merkle tree length"@,
            StoreError::BuiltRowCount => "Invalid tree row_count"@,
            StoreError::CannotCompact => "Cannot compact this type of Store"@,
        }
    }

    /// Tells the user what went wrong.
    pub fn message(&self) -> (r: String)
        ensures
            r@ == self.text(),
    {
        match *self {
            StoreError::Arity => String::from_str("branches must be a power of 2"),
            StoreError::LeafMismatch => String::from_str("leaf and branch mis-match"),
            StoreError::LeafsNotPow2 => String::from_str("leafs must be a power of 2"),
            StoreError::TreeLength => String::from_str(
                "Invalid tree length provided for the specified arity",
            ),
            StoreError::DiscardsAllRows => String::from_str(
                "Cannot discard all rows except for the base",
            ),
            StoreError::RowCount => String::from_str("Inconsistent merkle tree row_count detected"),
            StoreError::InconsistentSize => String::from_str("Inconsistent store size detected"),
            StoreError::StoreSize { found, expected } => String::from_str("Inconsistent store size detected with external reader (")
                .concat(to_decimal(found).as_str())
                .concat(" != ")
                .concat(to_decimal(expected).as_str())
                .concat(")"),
            StoreError::StartOutOfRange { start, len } => String::from_str("start out of range ")
                .concat(to_decimal(start).as_str())
                .concat(" >= ")
                .concat(to_decimal(len).as_str()),
            StoreError::EndOutOfRange { end, len } => String::from_str("end out of range ")
                .concat(to_decimal(end).as_str())
                .concat(" > ")
                .concat(to_decimal(len).as_str()),
            StoreError::OutOfBounds => String::from_str("out of bounds"),
            StoreError::InvalidReadStart => String::from_str("Invalid read start"),
            StoreError::ReadRange => String::from_str("fail to read range"),
            StoreError::DataSize { multiple_of } => String::from_str("data size must be a multiple of ")
                .concat(to_decimal(multiple_of).as_str()),
            StoreError::BufSize { multiple_of } => String::from_str("buf size must be a multiple of ")
                .concat(to_decimal(multiple_of).as_str()),
            StoreError::SliceTooLarge { max } => String::from_str("Requested slice too large (max: ")
                .concat(to_decimal(max).as_str())
                .concat(")"),
            StoreError::NotEnoughSpace { len, elem_len, store_size } => String::from_str("not enough space, len: ")
                .concat(to_decimal(len).as_str())
                .concat(", E size ")
                .concat(to_decimal(elem_len).as_str())
                .concat(", store len ")
                .concat(to_decimal(store_size).as_str()),
            StoreError::TruncationLength => String::from_str("Invalid truncation length"),
            StoreError::CopyIncomplete => String::from_str("Failed to copy all data"),
            StoreError::ChunkSize => String::from_str("Invalid chunk size"),
            StoreError::HashedNodeLength => String::from_str("Invalid hashed node length"),
            StoreError::Branches => String::from_str("branches MUST be a power of 2"),
            StoreError::InconsistentData => String::from_str("Inconsistent data"),
            StoreError::OddLeafs => String::from_str("Leafs must be a power of two"),
            StoreError::MissingConfig => String::from_str(
                "LevelCacheStore build requires a valid config",
            ),
            StoreError::BuiltLength => String::from_str("Invalid merkle tree length"),
            StoreError::BuiltRowCount => String::from_str("Invalid tree row_count"),
            StoreError::CannotCompact => String::from_str("Cannot compact this type of Store"),
        }
    }
}

/// A number is written digit by digit: the last digit behind the number without it, and no
/// digit before the first. The digits are the characters from `0` on.
pub proof fn law_decimal_appends_digits(n: nat, q: nat, d: nat)
    requires
        d < 10,
        n == q * 10 + d,
    ensures
        decimal(n).last() as u32 == '0' as u32 + d,
        q == 0 ==> decimal(n).len() == 1,
        q > 0 ==> decimal(n).len() == decimal(q).len() + 1 && decimal(n).drop_last() == decimal(q),
{
    assert(n / 10 == q && n % 10 == d);
    if q > 0 {
        assert(decimal(n).drop_last() =~= decimal(q));
    }
}

/// What the user is told names the numbers of the refusal.
pub proof fn law_message_names_numbers(error: StoreError, r: String)
    requires
        call_ensures(StoreError::message, (&error,), r),
    ensures
        error matches StoreError::StartOutOfRange { start, len } ==> r@
            == "start out of range "@ + decimal(start as nat) + " >= "@ + decimal(len as nat),
        error matches StoreError::EndOutOfRange { end, len } ==> r@ == "end out of range "@
            + decimal(end as nat) + " > "@ + decimal(len as nat),
        error matches StoreError::StoreSize { found, expected } ==> r@
            == "Inconsistent store size detected with external reader ("@ + decimal(found as nat)
            + " != "@ + decimal(expected as nat) + ")"@,
        error matches StoreError::DataSize { multiple_of } ==> r@
            == "data size must be a multiple of "@ + decimal(multiple_of as nat),
        error matches StoreError::BufSize { multiple_of } ==> r@
            == "buf size must be a multiple of "@ + decimal(multiple_of as nat),
        error matches StoreError::SliceTooLarge { max } ==> r@
            == "Requested slice too large (max: "@ + decimal(max as nat) + ")"@,
        error matches StoreError::NotEnoughSpace { len, elem_len, store_size } ==> r@
            == "not enough space, len: "@ + decimal(len as nat) + ", E size "@ + decimal(
            elem_len as nat,
        ) + ", store len "@ + decimal(store_size as nat),
{
}

/// What the user is told of a refusal without numbers.
pub proof fn law_message_texts(error: StoreError, r: String)
    requires
        call_ensures(StoreError::message, (&error,), r),
    ensures
        error is Arity ==> r@ == "branches must be a power of 2"@,
        error is LeafMismatch ==> r@ == "leaf and branch mis-match"@,
        error is LeafsNotPow2 ==> r@ == "leafs must be a power of 2"@,
        error is TreeLength ==> r@ == "Invalid tree length provided for the specified arity"@,
        error is DiscardsAllRows ==> r@ == "Cannot discard all rows except for the base"@,
        error is RowCount ==> r@ == "Inconsistent merkle tree row_count detected"@,
        error is InconsistentSize ==> r@ == "Inconsistent store size detected"@,
        error is OutOfBounds ==> r@ == "out of bounds"@,
        error is InvalidReadStart ==> r@ == "Invalid read start"@,
        error is ReadRange ==> r@ == "fail to read range"@,
        error is TruncationLength ==> r@ == "Invalid truncation length"@,
        error is CopyIncomplete ==> r@ == "Failed to copy all data"@,
        error is ChunkSize ==> r@ == "Invalid chunk size"@,
        error is HashedNodeLength ==> r@ == "Invalid hashed node length"@,
        error is Branches ==> r@ == "branches MUST be a power of 2"@,
        error is InconsistentData ==> r@ == "Inconsistent data"@,
        error is OddLeafs ==> r@ == "Leafs must be a power of two"@,
        error is MissingConfig ==> r@ == "LevelCacheStore build requires a valid config"@,
        error is BuiltLength ==> r@ == "Invalid merkle tree length"@,
        error is BuiltRowCount ==> r@ == "Invalid tree row_count"@,
        error is CannotCompact ==> r@ == "Cannot compact this type of Store"@,
{
}

} // verus!
