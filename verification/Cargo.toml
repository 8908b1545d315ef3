[package]
name = "polysearch"
version = "0.1.0"
edition = "2021"
publish = false

[dependencies]
arrayvec = "0.7.8"
pinyin_pro = "3.29.4"
rapidhash = "4.5.1"
smallvec = "1.16.4"
string-interner = "*"
