//! The function-like expression language in which policies are written:
//! token trees, numbers and hash images, as `miniscript` and `bitcoin_hashes`
//! read them.

use vstd::prelude::*;
use vstd::string::*;
use crate::text::decimal;
use bitcoin_hashes::hex::FromHex;

verus! {

/// A token of the form `x(...)` or `x`
#[derive(Debug)]
pub struct Expression {
    /// The name `x`
    pub name: String,
    /// The comma-separated contents of the `(...)`, if any
    pub args: Vec<Expression>,
}

/// The mathematical value of a token tree.
pub struct ExpressionView {
    pub name: Seq<char>,
    pub args: Seq<ExpressionView>,
}

impl View for Expression {
    type V = ExpressionView;

    open spec fn view(&self) -> ExpressionView {
        expression_view(*self)
    }
}

/// The value of a token tree.
pub open spec fn expression_view(t: Expression) -> ExpressionView
    decreases t,
{
    ExpressionView { name: t.name@, args: expression_views_prefix(t.args@, t.args@.len()) }
}

/// The values of the first `n` trees of a list.
pub open spec fn expression_views_prefix(args: Seq<Expression>, n: nat) -> Seq<ExpressionView>
    decreases args, n,
{
    if n == 0 || n > args.len() {
        Seq::empty()
    } else {
        expression_views_prefix(args, (n - 1) as nat).push(expression_view(args[n - 1]))
    }
}

/// The values of a list of token trees, item by item.
pub open spec fn expression_views(args: Seq<Expression>) -> Seq<ExpressionView> {
    expression_views_prefix(args, args.len())
}

/// `expression_views_prefix` is the item-wise view of the prefix.
pub proof fn lemma_expression_views_prefix(args: Seq<Expression>, n: nat)
    requires
        n <= args.len(),
    ensures
        expression_views_prefix(args, n).len() == n,
        forall|i: int| 0 <= i < n ==> (#[trigger] expression_views_prefix(args, n)[i]) == args[i]@,
    decreases n,
{
    if n > 0 {
        lemma_expression_views_prefix(args, (n - 1) as nat);
    }
}

/// `expression_views` is the item-wise view of the list.
pub proof fn lemma_expression_views(args: Seq<Expression>)
    ensures
        expression_views(args).len() == args.len(),
        forall|i: int| 0 <= i < args.len() ==> (#[trigger] expression_views(args)[i]) == args[i]@,
{
    lemma_expression_views_prefix(args, args.len());
}

/// What can go wrong while a policy is read from text.
#[derive(Debug)]
pub enum SyntaxError {
    /// Encountered unprintable character in descriptor
    Unprintable(u8),
    /// expected character while parsing descriptor; didn't find one
    ExpectedChar(char),
    /// Got something we were not expecting
    Unexpected(String),
    /// Recursion depth exceeded when parsing policy/miniscript from string
    MaxRecursiveDepthExceeded,
    /// `And` fragments only support two args
    NonBinaryArgAnd,
    /// `Or` fragments only support two args
    NonBinaryArgOr,
    /// Any other failure of the expression parser, by its text
    Other(String),
}

/// The mathematical value of a `SyntaxError`.
pub enum SyntaxErrorView {
    Unprintable(u8),
    ExpectedChar(char),
    Unexpected(Seq<char>),
    MaxRecursiveDepthExceeded,
    NonBinaryArgAnd,
    NonBinaryArgOr,
    Other(Seq<char>),
}

impl View for SyntaxError {
    type V = SyntaxErrorView;

    open spec fn view(&self) -> SyntaxErrorView {
        match self {
            SyntaxError::Unprintable(b) => SyntaxErrorView::Unprintable(*b),
            SyntaxError::ExpectedChar(c) => SyntaxErrorView::ExpectedChar(*c),
            SyntaxError::Unexpected(s) => SyntaxErrorView::Unexpected(s@),
            SyntaxError::MaxRecursiveDepthExceeded => SyntaxErrorView::MaxRecursiveDepthExceeded,
            SyntaxError::NonBinaryArgAnd => SyntaxErrorView::NonBinaryArgAnd,
            SyntaxError::NonBinaryArgOr => SyntaxErrorView::NonBinaryArgOr,
            SyntaxError::Other(s) => SyntaxErrorView::Other(s@),
        }
    }
}

/// The token tree of a text in the expression language, or why it has none:
/// what `miniscript::expression::Tree::from_str` returns for it.
pub uninterp spec fn expression_tree(s: Seq<char>) -> Result<ExpressionView, SyntaxErrorView>;

/// The view of a parse outcome.
pub open spec fn tree_outcome_view(r: Result<Expression, SyntaxError>) -> Result<
    ExpressionView,
    SyntaxErrorView,
> {
    match r {
        Ok(t) => Ok(t@),
        Err(e) => Err(e@),
    }
}

/// A token tree of `miniscript`, which borrows its names from the text.
#[verifier::external_type_specification]
#[verifier::external_body]
pub struct ExTokenTree<'a>(miniscript::expression::Tree<'a>);

/// Copies a `miniscript::expression::Tree` into an `Expression`: the name as an
/// owned string, the arguments in order. The outside tree is opaque here, so
/// the contract says nothing of the copy.
#[verifier::external_body]
fn owned_tree(t: &miniscript::expression::Tree) -> (r: Expression) {
    Expression { name: t.name.to_owned(), args: t.args.iter().map(owned_tree).collect() }
}

/// Calls `miniscript::expression::Tree::from_str`. The outcome depends on the
/// text alone and is named `expression_tree`; the errors that the function
/// can raise are carried over variant by variant.
#[verifier::external_body]
pub(crate) fn parse_expression(s: &str) -> (r: Result<Expression, SyntaxError>)
    ensures
        tree_outcome_view(r) == expression_tree(s@),
{
    match miniscript::expression::Tree::from_str(s) {
        Ok(t) => Ok(owned_tree(&t)),
        Err(miniscript::Error::Unprintable(b)) => Err(SyntaxError::Unprintable(b)),
        Err(miniscript::Error::ExpectedChar(c)) => Err(SyntaxError::ExpectedChar(c)),
        Err(miniscript::Error::Unexpected(t)) => Err(SyntaxError::Unexpected(t)),
        Err(miniscript::Error::MaxRecursiveDepthExceeded) => Err(
            SyntaxError::MaxRecursiveDepthExceeded,
        ),
        Err(e) => Err(SyntaxError::Other(e.to_string())),
    }
}

/// Whether `c` is one of the ten decimal digits.
pub open spec fn is_digit(c: char) -> bool {
    '0' as u32 <= c as u32 <= '9' as u32
}

/// Whether every character is a decimal digit.
pub open spec fn all_digits(s: Seq<char>) -> bool {
    forall|i: int| 0 <= i < s.len() ==> is_digit(#[trigger] s[i])
}

/// The number that a string of decimal digits denotes.
pub open spec fn decimal_value(s: Seq<char>) -> nat
    decreases s.len(),
{
    if s.len() == 0 {
        0
    } else {
        (decimal_value(s.drop_last()) * 10 + (s.last() as u32 - '0' as u32)) as nat
    }
}

/// How a timelock or a threshold is read: a decimal numeral that fits 32
/// bits, without sign and without a leading zero (but `0` itself). The error
/// is the text that is reported as unexpected.
pub open spec fn number_spec(s: Seq<char>) -> Result<u32, Seq<char>> {
    if vstd::utf8::encode_utf8(s).len() > 1 && !('1' as u32 <= s[0] as u32 <= '9' as u32) {
        Err("Number must start with a digit 1-9"@)
    } else if s.len() > 0 && all_digits(s) && decimal_value(s) <= u32::MAX {
        Ok(decimal_value(s) as u32)
    } else {
        Err(s)
    }
}

/// Calls `miniscript::expression::parse_num`, which refuses a longer text
/// (of more than one byte) that does not start with a digit from 1 to 9 and
/// otherwise reads the text
/// with `u32::from_str`. Its only error is `Unexpected`, whose text is handed
/// back.
#[verifier::external_body]
pub(crate) fn parse_num(s: &str) -> (r: Result<u32, String>)
    ensures
        match r {
            Ok(n) => number_spec(s@) == Ok::<u32, Seq<char>>(n),
            Err(t) => number_spec(s@) == Err::<u32, Seq<char>>(t@),
        },
{
    match miniscript::expression::parse_num(s) {
        Ok(n) => Ok(n),
        Err(miniscript::Error::Unexpected(t)) => Err(t),
        Err(e) => Err(e.to_string()),
    }
}

/// The value of a hexadecimal digit, in either case.
pub open spec fn hex_digit_value(b: u8) -> Option<u8> {
    if 0x30 <= b <= 0x39 {
        Some((b - 0x30) as u8)
    } else if 0x61 <= b <= 0x66 {
        Some((b - 0x61 + 10) as u8)
    } else if 0x41 <= b <= 0x46 {
        Some((b - 0x41 + 10) as u8)
    } else {
        None
    }
}

/// The first byte that is no hexadecimal digit, if there is one.
pub open spec fn first_bad_hex(bytes: Seq<u8>) -> Option<u8>
    decreases bytes.len(),
{
    if bytes.len() == 0 {
        None
    } else if hex_digit_value(bytes[0]) is None {
        Some(bytes[0])
    } else {
        first_bad_hex(bytes.drop_first())
    }
}

/// The bytes that pairs of hexadecimal digits denote, the high digit first.
pub open spec fn hex_decoded(bytes: Seq<u8>) -> Seq<u8> {
    Seq::new(
        bytes.len() / 2,
        |i: int|
            (hex_digit_value(bytes[2 * i]).unwrap() * 16 + hex_digit_value(
                bytes[2 * i + 1],
            ).unwrap()) as u8,
    )
}

/// How a SHA256 image is read from the bytes of its text: 64 hexadecimal
/// digits. The error is the text of the failure.
pub open spec fn hash_from_hex(bytes: Seq<u8>) -> Result<Seq<u8>, Seq<char>> {
    if bytes.len() % 2 != 0 {
        Err("odd hex string length "@ + decimal(bytes.len()))
    } else if bytes.len() != 64 {
        Err("bad hex string length "@ + decimal(bytes.len()) + " (expected 64)"@)
    } else {
        match first_bad_hex(bytes) {
            Some(b) => Err("invalid hex character "@ + decimal(b as nat)),
            None => Ok(hex_decoded(bytes)),
        }
    }
}

/// Calls `from_hex` of `bitcoin_hashes::hex::FromHex` for
/// `bitcoin_hashes::sha256::Hash`: the text must have an even number of bytes,
/// then 64 of them, then hold hexadecimal digits only; the digest is read in
/// the order written. A failure is handed back as the text that `Display`
/// writes for it.
#[verifier::external_body]
pub(crate) fn sha256_from_hex(s: &str) -> (r: Result<[u8; 32], String>)
    ensures
        match r {
            Ok(h) => hash_from_hex(s.spec_bytes()) == Ok::<Seq<u8>, Seq<char>>(h@),
            Err(t) => hash_from_hex(s.spec_bytes()) == Err::<Seq<u8>, Seq<char>>(t@),
        },
{
    match bitcoin_hashes::sha256::Hash::from_hex(s) {
        Ok(h) => Ok(bitcoin_hashes::Hash::into_inner(h)),
        Err(e) => Err(e.to_string()),
    }
}

} // verus!
