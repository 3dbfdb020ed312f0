//! The fixed catalog of resource type identifiers and their file extensions.
use vstd::prelude::*;
use vstd::string::StringSliceAdditionalSpecFns;

use crate::bytes::push_bytes;

verus! {

/// The file extension registered for a resource type identifier.
#[verifier::opaque]
pub open spec fn extension_of(type_id: u16) -> Option<&'static str> {
    match type_id {
        0x0000 => Some("res"),
        0x0001 => Some("bmp"),
        0x0002 => Some("mve"),
        0x0003 => Some("tga"),
        0x0004 => Some("wav"),
        0x0006 => Some("plt"),
        0x0007 => Some("ini"),
        0x0008 => Some("mp3"),
        0x0009 => Some("mpg"),
        0x000A => Some("txt"),
        0x000B => Some("wma"),
        0x000C => Some("wmv"),
        0x000D => Some("xmv"),
        0x07D0 => Some("plh"),
        0x07D1 => Some("tex"),
        0x07D2 => Some("mdl"),
        0x07D3 => Some("thg"),
        0x07D5 => Some("fnt"),
        0x07D7 => Some("lua"),
        0x07D8 => Some("slt"),
        0x07D9 => Some("nss"),
        0x07DA => Some("ncs"),
        0x07DB => Some("mod"),
        0x07DC => Some("are"),
        0x07DD => Some("set"),
        0x07DE => Some("ifo"),
        0x07DF => Some("bic"),
        0x07E0 => Some("wok"),
        0x07E1 => Some("2da"),
        0x07E2 => Some("tlk"),
        0x07E6 => Some("txi"),
        0x07E7 => Some("git"),
        0x07E8 => Some("bti"),
        0x07E9 => Some("uti"),
        0x07EA => Some("btc"),
        0x07EB => Some("utc"),
        0x07ED => Some("dlg"),
        0x07EE => Some("itp"),
        0x07EF => Some("btt"),
        0x07F0 => Some("utt"),
        0x07F1 => Some("dds"),
        0x07F2 => Some("bts"),
        0x07F3 => Some("uts"),
        0x07F4 => Some("ltr"),
        0x07F5 => Some("gff"),
        0x07F6 => Some("fac"),
        0x07F7 => Some("bte"),
        0x07F8 => Some("ute"),
        0x07F9 => Some("btd"),
        0x07FA => Some("utd"),
        0x07FB => Some("btp"),
        0x07FC => Some("utp"),
        0x07FD => Some("dft"),
        0x07FE => Some("gic"),
        0x07FF => Some("gui"),
        0x0800 => Some("css"),
        0x0801 => Some("ccs"),
        0x0802 => Some("btm"),
        0x0803 => Some("utm"),
        0x0804 => Some("dwk"),
        0x0805 => Some("pwk"),
        0x0806 => Some("btg"),
        0x0807 => Some("utg"),
        0x0808 => Some("jrl"),
        0x0809 => Some("sav"),
        0x080A => Some("utw"),
        0x080B => Some("4pc"),
        0x080C => Some("ssf"),
        0x080D => Some("hak"),
        0x080E => Some("nwm"),
        0x080F => Some("bik"),
        0x0810 => Some("ndb"),
        0x0811 => Some("ptm"),
        0x0812 => Some("ptt"),
        0x0BB8 => Some("lyt"),
        0x0BB9 => Some("vis"),
        0x0BBA => Some("rim"),
        0x0BBB => Some("pth"),
        0x0BBC => Some("lip"),
        0x0BBD => Some("bwm"),
        0x0BBE => Some("txb"),
        0x0BBF => Some("tpc"),
        0x0BC0 => Some("mdx"),
        0x0BC1 => Some("rsv"),
        0x0BC2 => Some("sig"),
        0x0BC3 => Some("xbx"),
        0x270D => Some("erf"),
        0x270E => Some("bif"),
        0x270F => Some("key"),
        _ => None,
    }
}

/// A resource's fully qualified name: `reference + "." + extension`.
pub open spec fn qualified_name(reference: Seq<u8>, ext: &'static str) -> Seq<u8> {
    reference + seq![46u8] + ext.spec_bytes()
}

/// Builds the fully qualified name `reference + "." + extension`.
pub fn make_qualified_name(reference: &[u8], ext: &'static str) -> (r: Vec<u8>)
    ensures
        r@ == qualified_name(reference@, ext),
{
    let mut name: Vec<u8> = Vec::new();
    push_bytes(&mut name, reference);
    name.push(46u8);
    push_bytes(&mut name, ext.as_bytes());
    assert(name@ =~= qualified_name(reference@, ext));
    name
}

/// Looks up the file extension registered for `type_id`.
pub fn resource_extension(type_id: u16) -> (r: Option<&'static str>)
    ensures
        r == extension_of(type_id),
{
    reveal(extension_of);
    match type_id {
        0x0000 => Some("res"),
        0x0001 => Some("bmp"),
        0x0002 => Some("mve"),
        0x0003 => Some("tga"),
        0x0004 => Some("wav"),
        0x0006 => Some("plt"),
        0x0007 => Some("ini"),
        0x0008 => Some("mp3"),
        0x0009 => Some("mpg"),
        0x000A => Some("txt"),
        0x000B => Some("wma"),
        0x000C => Some("wmv"),
        0x000D => Some("xmv"),
        0x07D0 => Some("plh"),
        0x07D1 => Some("tex"),
        0x07D2 => Some("mdl"),
        0x07D3 => Some("thg"),
        0x07D5 => Some("fnt"),
        0x07D7 => Some("lua"),
        0x07D8 => Some("slt"),
        0x07D9 => Some("nss"),
        0x07DA => Some("ncs"),
        0x07DB => Some("mod"),
        0x07DC => Some("are"),
        0x07DD => Some("set"),
        0x07DE => Some("ifo"),
        0x07DF => Some("bic"),
        0x07E0 => Some("wok"),
        0x07E1 => Some("2da"),
        0x07E2 => Some("tlk"),
        0x07E6 => Some("txi"),
        0x07E7 => Some("git"),
        0x07E8 => Some("bti"),
        0x07E9 => Some("uti"),
        0x07EA => Some("btc"),
        0x07EB => Some("utc"),
        0x07ED => Some("dlg"),
        0x07EE => Some("itp"),
        0x07EF => Some("btt"),
        0x07F0 => Some("utt"),
        0x07F1 => Some("dds"),
        0x07F2 => Some("bts"),
        0x07F3 => Some("uts"),
        0x07F4 => Some("ltr"),
        0x07F5 => Some("gff"),
        0x07F6 => Some("fac"),
        0x07F7 => Some("bte"),
        0x07F8 => Some("ute"),
        0x07F9 => Some("btd"),
        0x07FA => Some("utd"),
        0x07FB => Some("btp"),
        0x07FC => Some("utp"),
        0x07FD => Some("dft"),
        0x07FE => Some("gic"),
        0x07FF => Some("gui"),
        0x0800 => Some("css"),
        0x0801 => Some("ccs"),
        0x0802 => Some("btm"),
        0x0803 => Some("utm"),
        0x0804 => Some("dwk"),
        0x0805 => Some("pwk"),
        0x0806 => Some("btg"),
        0x0807 => Some("utg"),
        0x0808 => Some("jrl"),
        0x0809 => Some("sav"),
        0x080A => Some("utw"),
        0x080B => Some("4pc"),
        0x080C => Some("ssf"),
        0x080D => Some("hak"),
        0x080E => Some("nwm"),
        0x080F => Some("bik"),
        0x0810 => Some("ndb"),
        0x0811 => Some("ptm"),
        0x0812 => Some("ptt"),
        0x0BB8 => Some("lyt"),
        0x0BB9 => Some("vis"),
        0x0BBA => Some("rim"),
        0x0BBB => Some("pth"),
        0x0BBC => Some("lip"),
        0x0BBD => Some("bwm"),
        0x0BBE => Some("txb"),
        0x0BBF => Some("tpc"),
        0x0BC0 => Some("mdx"),
        0x0BC1 => Some("rsv"),
        0x0BC2 => Some("sig"),
        0x0BC3 => Some("xbx"),
        0x270D => Some("erf"),
        0x270E => Some("bif"),
        0x270F => Some("key"),
        _ => None,
    }
}

} // verus!
