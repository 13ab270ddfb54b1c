use icon::{
    DirectoryIndex, DirectoryType, EntryAttr, EntrySection, RequiredAttribute, ThemeIndex, ThemeParseError,
};

const EXAMPLE: &str = "[Icon Theme]
Name=Birch
Name[sv]=Björk
Comment=Icon theme with a wooden look
Comment[sv]=Träinspirerat ikontema
Inherits=wood,default
Directories=48x48/apps,48x48@2/apps,48x48/mimetypes,32x32/apps,32x32@2/apps,scalable/apps,scalable/mimetypes

[scalable/apps]
Size=48
Type=Scalable
MinSize=1
MaxSize=256
Context=Applications

[scalable/mimetypes]
Size=48
Type=Scalable
MinSize=1
MaxSize=256
Context=MimeTypes

[32x32/apps]
Size=32
Type=Fixed
Context=Applications

[32x32@2/apps]
Size=32
Scale=2
Type=Fixed
Context=Applications

[48x48/apps]
Size=48
Type=Fixed
Context=Applications

[48x48@2/apps]
Size=48
Scale=2
Type=Fixed
Context=Applications

[48x48/mimetypes]
Size=48
Type=Fixed
Context=MimeTypes
";

#[test]
fn test_parse_example_theme() {
    let index = ThemeIndex::parse(EXAMPLE.as_bytes()).unwrap();

    assert_eq!(index.name, "Birch");
    assert_eq!(index.comment, "Icon theme with a wooden look");
    assert_eq!(index.inherits, vec!["wood", "default"]);

    let directories = index.directories;

    assert_eq!(directories.len(), 7);

    let first_dir_index = &directories[0];
    assert_eq!(first_dir_index.directory_name, "scalable/apps");
    assert_eq!(first_dir_index.is_scaled_dir, false);
    assert_eq!(first_dir_index.size, 48);
    assert_eq!(first_dir_index.scale, 1);
    assert_eq!(first_dir_index.context.as_deref(), Some("Applications"));
    assert_eq!(first_dir_index.directory_type, DirectoryType::Scalable);
    assert_eq!(first_dir_index.max_size, 256);
    assert_eq!(first_dir_index.min_size, 1);
    assert_eq!(first_dir_index.threshold, 2);

    assert_eq!(index.hidden, false);
    assert_eq!(index.example, None);
}

#[test]
fn scaled_directories_and_defaults() {
    let text = "[Icon Theme]
Name=T
Directories=16x16
ScaledDirectories=16x16@2
Hidden=true
Example=folder

[16x16]
Size=16

[16x16@2]
Size=16
Scale=2

[unlisted]
Size=99
";
    let index = ThemeIndex::parse(text.as_bytes()).unwrap();
    assert_eq!(index.comment, "");
    assert!(index.inherits.is_empty());
    assert!(index.hidden);
    assert_eq!(index.example.as_deref(), Some("folder"));
    assert_eq!(index.directories.len(), 2);
    let d = &index.directories[0];
    assert_eq!(d.directory_type, DirectoryType::Threshold);
    assert_eq!((d.size, d.scale, d.min_size, d.max_size, d.threshold), (16, 1, 16, 16, 2));
    assert!(!d.is_scaled_dir);
    assert!(d.context.is_none());
    let s = &index.directories[1];
    assert_eq!(s.directory_name, "16x16@2");
    assert_eq!(s.scale, 2);
    assert!(s.is_scaled_dir);
}

fn err(text: &str) -> ThemeParseError {
    match ThemeIndex::parse(text.as_bytes()) {
        Err(e) => e,
        Ok(_) => panic!("expected an error"),
    }
}

#[test]
fn index_errors() {
    assert_eq!(err(""), ThemeParseError::NotAnIconTheme);
    assert_eq!(err("[Icon Theme]\nDirectories=a\n"), ThemeParseError::MissingRequiredAttribute(RequiredAttribute::Name));
    assert_eq!(err("[Icon Theme]\nName=x\n"), ThemeParseError::MissingRequiredAttribute(RequiredAttribute::Directories));
    assert_eq!(err("[Icon Theme]\nName=x\nDirectories=a\nHidden=yes\n"), ThemeParseError::ParseBoolError);
    assert_eq!(err("[Icon Theme]\nName=x\nDirectories=a\n\n[a]\nScale=1\n"), ThemeParseError::MissingRequiredAttribute(RequiredAttribute::Size));
    assert_eq!(err("[Icon Theme]\nName=x\nDirectories=a\n\n[a]\nSize=big\n"), ThemeParseError::ParseNumError);
    assert_eq!(err("[Icon Theme]\nName=x\nDirectories=a\n\n[a]\nSize=4\nType=Odd\n"), ThemeParseError::InvalidDirectoryType);
    assert_eq!(err("[Icon Theme]\nName=x\nDirectories=a\n\n[a]\nSize=4\nThreshold=-1\n"), ThemeParseError::ParseNumError);
}

#[test]
fn index_not_utf8() {
    let mut bytes = b"[Icon Theme]\nName=".to_vec();
    bytes.push(0xff);
    bytes.extend_from_slice(b"\nDirectories=a\n");
    assert_eq!(ThemeIndex::parse(&bytes).err(), Some(ThemeParseError::NotUtf8));
}

fn attr(name: &str, value: &str) -> EntryAttr {
    EntryAttr { name: name.as_bytes().to_vec(), value: value.as_bytes().to_vec(), has_param: false }
}

#[test]
fn directory_sections_parse() {
    let section = EntrySection {
        title: b"22x22/apps".to_vec(),
        attrs: vec![
            attr("Size", "22"),
            EntryAttr { name: b"Size".to_vec(), value: b"1".to_vec(), has_param: true },
            attr("Scale", "3"),
            attr("MinSize", "8"),
            attr("MaxSize", "40"),
            attr("Threshold", "5"),
            attr("Context", "Apps"),
        ],
    };
    let d = DirectoryIndex::parse(&section).unwrap();
    assert_eq!(d.directory_name, "22x22/apps");
    assert_eq!((d.size, d.scale, d.min_size, d.max_size, d.threshold), (22, 3, 8, 40, 5));
    assert!(d.is_scaled_dir);
    assert_eq!(d.context.as_deref(), Some("Apps"));
    assert_eq!(d.directory_type, DirectoryType::Threshold);

    let bad = EntrySection { title: vec![0xc3], attrs: vec![attr("Size", "4")] };
    assert!(matches!(DirectoryIndex::parse(&bad), Err(ThemeParseError::NotUtf8)));
}

#[test]
fn required_attribute_keys() {
    assert_eq!(RequiredAttribute::Name.key(), "Name");
    assert_eq!(RequiredAttribute::Directories.key(), "Directories");
    assert_eq!(RequiredAttribute::Size.key(), "Size");
}

#[test]
fn sizes_follow_unsigned_number_syntax() {
    let ok = "[Icon Theme]\nName=x\nDirectories=a\n\n[a]\nSize=+16\nMaxSize=4294967295\n";
    let index = ThemeIndex::parse(ok.as_bytes()).unwrap();
    assert_eq!(index.directories[0].size, 16);
    assert_eq!(index.directories[0].max_size, u32::MAX);
    assert_eq!(err("[Icon Theme]\nName=x\nDirectories=a\n\n[a]\nSize=4294967296\n"), ThemeParseError::ParseNumError);
    assert_eq!(err("[Icon Theme]\nName=x\nDirectories=a\n\n[a]\nSize=+\n"), ThemeParseError::ParseNumError);
    assert_eq!(err("[Icon Theme]\nName=x\nDirectories=a\n\n[a]\nSize=\n"), ThemeParseError::ParseNumError);
}
