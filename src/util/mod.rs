pub mod bencode;
