use secret::error::Error;
use secret::size::get_z;

#[test]
fn sizes_below_a_kibibyte_are_in_bytes() {
    assert_eq!(get_z(0), "0 Б");
    assert_eq!(get_z(7), "7 Б");
    assert_eq!(get_z(1023), "1023 Б");
}

#[test]
fn sizes_in_kibibytes_have_three_decimals() {
    assert_eq!(get_z(1024), "1.000 КБ");
    assert_eq!(get_z(1536), "1.500 КБ");
    assert_eq!(get_z(1089), "1.063 КБ");
    assert_eq!(get_z(1048575), "1023.999 КБ");
}

#[test]
fn ties_round_to_the_even_thousandth() {
    // 1088 / 1024 = 1.0625 and 1216 / 1024 = 1.1875.
    assert_eq!(get_z(1088), "1.062 КБ");
    assert_eq!(get_z(1216), "1.188 КБ");
}

#[test]
fn sizes_in_mebibytes_have_three_decimals() {
    assert_eq!(get_z(1048576), "1.000 МБ");
    assert_eq!(get_z(2621440), "2.500 МБ");
    assert_eq!(get_z(2097151), "2.000 МБ");
    assert_eq!(get_z(10 * 1048576 + 1024), "10.001 МБ");
}

#[test]
fn error_messages() {
    assert_eq!(Error::FileRead("a.png".to_string()).message(), "Не удалось прочистать файл: a.png");
    assert_eq!(Error::FileWrite("b.bin".to_string()).message(), "Не удалось записать файл: b.bin");
    assert_eq!(Error::Decoder("bad".to_string()).message(), "Ошибка декодера: bad");
    assert_eq!(Error::Encoder("bad".to_string()).message(), "Ошибка кодировщика: bad");
    assert_eq!(Error::NoFreeSpace.message(), "Недостаточно места для вшивания файла");
    assert_eq!(Error::BufEndedUnexpectedly.message(), "Буффер неожиданно закончился");
}
