//! The error type of the library.
use vstd::prelude::*;
use crate::tools::string_of;
use vstd::string::StringExecFns;

verus! {

/// Errors reported by the library.
#[derive(Debug, PartialEq, Eq)]
pub enum Error {
    /// An object was expected in the database, or in a display channel, and is not there.
    ObjectNotFound(String),
    /// A container is empty where it should not be.
    EmptyContainer(String),
    /// Saved data is malformed.
    YamlParseError(String),
    /// An interaction identifier does not have the expected shape. Holds the identifier and the
    /// identifier of the message it came from.
    InteractionIDError(String, u64),
    /// A value was missing where one was expected.
    NoneError,
    /// A preloaded channel was used before it was loaded. Holds the channel identifier.
    UnloadedItem(u64),
    /// A command was used wrongly.
    CommandUseError(String),
    /// Generic error, for conditions that should not be reachable.
    Generic,
    /// An error reported by an outside library, by its message.
    LibError(String),
}

/// The decimal digits of `n`, most significant first.
pub open spec fn decimal(n: nat) -> Seq<char>
    decreases n,
{
    if n < 10 {
        seq![digit_char(n)]
    } else {
        decimal(n / 10).push(digit_char(n % 10))
    }
}

/// The character of a decimal digit.
pub open spec fn digit_char(d: nat) -> char {
    if d == 0 { '0' } else if d == 1 { '1' } else if d == 2 { '2' } else if d == 3 { '3' } else if d == 4 { '4' }
    else if d == 5 { '5' } else if d == 6 { '6' } else if d == 7 { '7' } else if d == 8 { '8' } else { '9' }
}

/// The character of the decimal digit `d`, which is below ten.
fn digit(d: u64) -> (r: char)
    requires
        d < 10,
    ensures
        r == digit_char(d as nat),
{
    if d == 0 { '0' } else if d == 1 { '1' } else if d == 2 { '2' } else if d == 3 { '3' } else if d == 4 { '4' }
    else if d == 5 { '5' } else if d == 6 { '6' } else if d == 7 { '7' } else if d == 8 { '8' } else { '9' }
}

/// `n` written in decimal.
pub fn decimal_string(n: u64) -> (r: String)
    ensures
        r@ == decimal(n as nat),
{
    let mut digits: Vec<char> = Vec::new();
    let mut m: u64 = n;
    let mut done = false;
    while !done
        invariant
            !done ==> decimal(n as nat) == decimal(m as nat) + digits@,
            done ==> decimal(n as nat) == digits@,
        decreases m as int + if done { 0int } else { 1int },
    {
        let ghost before = digits@;
        digits.insert(0, digit(m % 10));
        assert(digits@ =~= seq![digit_char((m % 10) as nat)] + before);
        if m < 10 {
            assert(decimal(m as nat) == seq![digit_char(m as nat)]);
            assert(digits@ =~= decimal(m as nat) + before);
            done = true;
        } else {
            assert(decimal(m as nat) == decimal((m / 10) as nat).push(digit_char((m % 10) as nat)));
            assert(decimal(m as nat) + before =~= decimal((m / 10) as nat) + digits@);
            m = m / 10;
        }
    }
    string_of(&digits)
}

/// A text made of a fixed part followed by a variable one.
fn joined(head: &str, tail: &str) -> (r: String)
    ensures
        r@ == head@ + tail@,
{
    String::from_str(head).concat(tail)
}

/// The message that describes an error.
pub open spec fn message_of(e: Error) -> Seq<char> {
    match e {
        Error::ObjectNotFound(m) => "Objet non trouvé : "@ + m@,
        Error::EmptyContainer(m) => "Conteneur vide : "@ + m@,
        Error::YamlParseError(m) => "Erreur de formatage yaml : "@ + m@,
        Error::InteractionIDError(id, message) => "Erreur de format de l’identifiant "@ + id@ + " sur le message "@
            + decimal(message as nat),
        Error::NoneError => "Option None non-attendue."@,
        Error::UnloadedItem(id) => "Affichan "@ + decimal(id as nat) + " appelé mais non chargé."@,
        Error::CommandUseError(m) => "Erreur d’utilisation de la commande : "@ + m@,
        Error::Generic => "Erreur de bot générique."@,
        Error::LibError(m) => m@,
    }
}

impl Error {
    /// The message that describes the error, as [`message_of`] says.
    pub fn message(&self) -> (r: String)
        ensures
            r@ == message_of(*self),
    {
        match self {
            Error::ObjectNotFound(m) => joined("Objet non trouvé : ", m.as_str()),
            Error::EmptyContainer(m) => joined("Conteneur vide : ", m.as_str()),
            Error::YamlParseError(m) => joined("Erreur de formatage yaml : ", m.as_str()),
            Error::InteractionIDError(id, message) => {
                let head = joined("Erreur de format de l’identifiant ", id.as_str());
                let middle = head.concat(" sur le message ");
                let number = decimal_string(*message);
                middle.concat(number.as_str())
            },
            Error::NoneError => String::from_str("Option None non-attendue."),
            Error::UnloadedItem(id) => {
                let number = decimal_string(*id);
                let head = joined("Affichan ", number.as_str());
                head.concat(" appelé mais non chargé.")
            },
            Error::CommandUseError(m) => joined("Erreur d’utilisation de la commande : ", m.as_str()),
            Error::Generic => String::from_str("Erreur de bot générique."),
            Error::LibError(m) => m.clone(),
        }
    }
}

} // verus!
