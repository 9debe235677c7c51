use tei_viewer::project_config::{PageInfo, ProjectConfig, ProjectMetadata, ProjectRegistry};

#[test]
fn test_project_config() {
    let config = ProjectConfig::new("TEST".to_string(), "Test Project".to_string());
    assert_eq!(config.id, "TEST");
    assert_eq!(config.name, "Test Project");
}

#[test]
fn test_page_info() {
    let page = PageInfo::new(1).with_label("First Page".to_string());
    assert_eq!(page.number, 1);
    assert_eq!(page.label, "First Page");
    assert!(page.has_diplomatic);
    assert!(page.has_translation);
    assert!(page.has_image);
}

#[test]
fn test_project_registry() {
    let projects = ProjectRegistry::get_all_projects();
    assert!(!projects.is_empty());

    let pgm = ProjectRegistry::get_project("PGM-XIII");
    assert!(pgm.is_some());
    assert_eq!(pgm.unwrap().name, "Papyri Graecae Magicae XIII");
}

#[test]
fn test_paths() {
    let config = ProjectConfig::new("TEST".to_string(), "Test".to_string());
    assert_eq!(config.get_diplomatic_path(1), "projects/TEST/p1_dip.xml");
    assert_eq!(config.get_translation_path(1), "projects/TEST/p1_trad.xml");
    assert_eq!(config.get_image_path(1), "projects/TEST/images/p1.jpg");
}

#[test]
fn new_project_is_empty_with_default_metadata() {
    let config = ProjectConfig::new("X".to_string(), "Y".to_string());
    assert_eq!(config.description, "");
    assert!(config.pages.is_empty());
    assert_eq!(config.get_page_count(), 0);
    assert_eq!(config.metadata, ProjectMetadata::default());
    assert_eq!(config.metadata.author, "Anonymous");
    assert_eq!(config.metadata.language, "grc");
    assert_eq!(config.metadata.editor, "");
    assert_eq!(config.metadata.date_range, "");
}

#[test]
fn new_page_has_numbered_label() {
    assert_eq!(PageInfo::new(0).label, "Page 0");
    assert_eq!(PageInfo::new(7).label, "Page 7");
    assert_eq!(PageInfo::new(25).label, "Page 25");
    assert_eq!(PageInfo::new(1000).label, "Page 1000");
    assert_eq!(PageInfo::new(u32::MAX).label, "Page 4294967295");
}

#[test]
fn builders_change_one_field_each() {
    let page = PageInfo::new(3).with_diplomatic(false);
    assert_eq!(
        page,
        PageInfo {
            number: 3,
            label: "Page 3".to_string(),
            has_diplomatic: false,
            has_translation: true,
            has_image: true
        }
    );
    let page = PageInfo::new(3).with_translation(false);
    assert!(page.has_diplomatic && !page.has_translation && page.has_image);
    let page = PageInfo::new(3).with_image(false);
    assert!(page.has_diplomatic && page.has_translation && !page.has_image);
    let page = PageInfo::new(3).with_image(false).with_image(true);
    assert!(page.has_image);
}

#[test]
fn get_page_finds_the_first_page_of_a_number() {
    let mut config = ProjectConfig::new("T".to_string(), "T".to_string());
    config.pages.push(PageInfo::new(2));
    config.pages.push(PageInfo::new(5).with_label("first five".to_string()));
    config.pages.push(PageInfo::new(5).with_label("second five".to_string()));
    assert_eq!(config.get_page_count(), 3);
    assert_eq!(config.get_page(5).unwrap().label, "first five");
    assert_eq!(config.get_page(2).unwrap().label, "Page 2");
    assert!(config.get_page(1).is_none());
}

#[test]
fn paths_hold_id_and_page_number() {
    let config = ProjectConfig::new("PGM-XIII".to_string(), "n".to_string());
    assert_eq!(config.get_diplomatic_path(12), "projects/PGM-XIII/p12_dip.xml");
    assert_eq!(config.get_translation_path(0), "projects/PGM-XIII/p0_trad.xml");
    assert_eq!(
        config.get_image_path(4294967295),
        "projects/PGM-XIII/images/p4294967295.jpg"
    );
    let empty = ProjectConfig::new(String::new(), String::new());
    assert_eq!(empty.get_image_path(10), "projects//images/p10.jpg");
}

#[test]
fn registry_holds_the_papyrus_with_25_folios() {
    let projects = ProjectRegistry::get_all_projects();
    assert_eq!(projects.len(), 1);
    let project = &projects[0];
    assert_eq!(project.id, "PGM-XIII");
    assert_eq!(
        project.description,
        "Magical papyrus from the Greek Magical Papyri corpus, housed at the Rijksmuseum Amsterdam (AMS76)."
    );
    assert_eq!(project.metadata.author, "Anonymous");
    assert_eq!(project.metadata.editor, "Robert W. Daniel");
    assert_eq!(project.metadata.collection, "Papyri Graecae Magicae");
    assert_eq!(project.metadata.institution, "Rijksmuseum Amsterdam");
    assert_eq!(project.metadata.country, "Netherlands");
    assert_eq!(project.metadata.language, "Ancient Greek (grc)");
    assert_eq!(project.metadata.date_range, "1st c. BCE \u{2013} 4th c. CE");
    assert_eq!(project.get_page_count(), 25);
    for (index, page) in project.pages.iter().enumerate() {
        let number = index as u32 + 1;
        assert_eq!(page.number, number);
        assert_eq!(page.label, format!("Folio {}", number));
        assert!(page.has_diplomatic);
        assert_eq!(page.has_translation, number == 1);
        assert!(page.has_image);
    }
    assert_eq!(project.get_page(25).unwrap().label, "Folio 25");
    assert!(project.get_page(26).is_none());
}

#[test]
fn registry_lookup_by_id() {
    let all = ProjectRegistry::get_all_projects();
    assert_eq!(ProjectRegistry::get_project("PGM-XIII").unwrap(), all[0]);
    assert!(ProjectRegistry::get_project("pgm-xiii").is_none());
    assert!(ProjectRegistry::get_project("").is_none());
    assert_eq!(ProjectRegistry::get_project_ids(), vec!["PGM-XIII".to_string()]);
}
