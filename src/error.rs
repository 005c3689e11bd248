//! What can go wrong while hiding or recovering a file.
use vstd::prelude::*;

verus! {

/// The failures that hiding or recovering a file can end in.
#[derive(Debug, PartialEq, Eq)]
pub enum Error {
    /// The file at this path could not be read.
    FileRead(String),
    /// The file at this path could not be written.
    FileWrite(String),
    /// The image decoder failed, with its message.
    Decoder(String),
    /// The image encoder failed, with its message.
    Encoder(String),
    /// The payload and its length header do not fit into the carrier.
    NoFreeSpace,
    /// The recovered stream ends before the length that its header gives.
    BufEndedUnexpectedly,
}

/// The text shown to the user for `e`.
pub open spec fn message_of(e: Error) -> Seq<char> {
    match e {
        Error::FileRead(p) => "Не удалось прочистать файл: "@ + p@,
        Error::FileWrite(p) => "Не удалось записать файл: "@ + p@,
        Error::Decoder(m) => "Ошибка декодера: "@ + m@,
        Error::Encoder(m) => "Ошибка кодировщика: "@ + m@,
        Error::NoFreeSpace => "Недостаточно места для вшивания файла"@,
        Error::BufEndedUnexpectedly => "Буффер неожиданно закончился"@,
    }
}

impl Error {
    /// The text shown to the user for this error.
    pub fn message(&self) -> (r: String)
        ensures
            r@ == message_of(*self),
    {
        match self {
            Error::FileRead(p) => "Не удалось прочистать файл: ".to_string().concat(p.as_str()),
            Error::FileWrite(p) => "Не удалось записать файл: ".to_string().concat(p.as_str()),
            Error::Decoder(m) => "Ошибка декодера: ".to_string().concat(m.as_str()),
            Error::Encoder(m) => "Ошибка кодировщика: ".to_string().concat(m.as_str()),
            Error::NoFreeSpace => "Недостаточно места для вшивания файла".to_string(),
            Error::BufEndedUnexpectedly => "Буффер неожиданно закончился".to_string(),
        }
    }
}

} // verus!
