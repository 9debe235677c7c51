//! Projects and their pages: what is offered to the reader, and where the
//! resources of a page are found.

use crate::text::{decimal_text, push_decimal, push_text};
use vstd::prelude::*;

verus! {

/// Bibliographic data of a project.
#[derive(Debug, Clone, PartialEq)]
pub struct ProjectMetadata {
    pub author: String,
    pub editor: String,
    pub collection: String,
    pub institution: String,
    pub country: String,
    pub language: String,
    pub date_range: String,
}

/// The mathematical value of a [`ProjectMetadata`].
pub struct ProjectMetadataModel {
    pub author: Seq<char>,
    pub editor: Seq<char>,
    pub collection: Seq<char>,
    pub institution: Seq<char>,
    pub country: Seq<char>,
    pub language: Seq<char>,
    pub date_range: Seq<char>,
}

impl View for ProjectMetadata {
    type V = ProjectMetadataModel;

    open spec fn view(&self) -> ProjectMetadataModel {
        ProjectMetadataModel {
            author: self.author@,
            editor: self.editor@,
            collection: self.collection@,
            institution: self.institution@,
            country: self.country@,
            language: self.language@,
            date_range: self.date_range@,
        }
    }
}

impl ProjectMetadataModel {
    /// The data of a project of which nothing is known: an anonymous work
    /// in Ancient Greek.
    pub open spec fn unknown() -> ProjectMetadataModel {
        ProjectMetadataModel {
            author: "Anonymous"@,
            editor: Seq::empty(),
            collection: Seq::empty(),
            institution: Seq::empty(),
            country: Seq::empty(),
            language: "grc"@,
            date_range: Seq::empty(),
        }
    }
}

impl Default for ProjectMetadata {
    fn default() -> (metadata: ProjectMetadata)
        ensures
            metadata@ == ProjectMetadataModel::unknown(),
    {
        ProjectMetadata {
            author: "Anonymous".to_string(),
            editor: String::new(),
            collection: String::new(),
            institution: String::new(),
            country: String::new(),
            language: "grc".to_string(),
            date_range: String::new(),
        }
    }
}

/// One page of a project, and which resources it has.
#[derive(Debug, Clone, PartialEq)]
pub struct PageInfo {
    pub number: u32,
    pub label: String,
    pub has_diplomatic: bool,
    pub has_translation: bool,
    pub has_image: bool,
}

/// The mathematical value of a [`PageInfo`].
pub struct PageModel {
    pub number: u32,
    pub label: Seq<char>,
    pub has_diplomatic: bool,
    pub has_translation: bool,
    pub has_image: bool,
}

impl View for PageInfo {
    type V = PageModel;

    open spec fn view(&self) -> PageModel {
        PageModel {
            number: self.number,
            label: self.label@,
            has_diplomatic: self.has_diplomatic,
            has_translation: self.has_translation,
            has_image: self.has_image,
        }
    }
}

/// The values of a sequence of pages, in order.
pub open spec fn pages_view(pages: Seq<PageInfo>) -> Seq<PageModel> {
    Seq::new(pages.len(), |i: int| pages[i]@)
}

impl PageInfo {
    /// The page `number`, labelled `Page` and its number, with every
    /// resource.
    pub fn new(number: u32) -> (page: PageInfo)
        ensures
            page@ == (PageModel {
                number,
                label: "Page "@ + decimal_text(number as nat),
                has_diplomatic: true,
                has_translation: true,
                has_image: true,
            }),
    {
        let mut label = "Page ".to_string();
        push_decimal(&mut label, number as u128);
        PageInfo { number, label, has_diplomatic: true, has_translation: true, has_image: true }
    }

    /// The page with the label `label`.
    pub fn with_label(self, label: String) -> (page: PageInfo)
        ensures
            page@ == (PageModel { label: label@, ..self@ }),
    {
        let mut page = self;
        page.label = label;
        page
    }

    /// The page with or without a diplomatic transcription.
    pub fn with_diplomatic(self, has: bool) -> (page: PageInfo)
        ensures
            page@ == (PageModel { has_diplomatic: has, ..self@ }),
    {
        let mut page = self;
        page.has_diplomatic = has;
        page
    }

    /// The page with or without a translation.
    pub fn with_translation(self, has: bool) -> (page: PageInfo)
        ensures
            page@ == (PageModel { has_translation: has, ..self@ }),
    {
        let mut page = self;
        page.has_translation = has;
        page
    }

    /// The page with or without an image.
    pub fn with_image(self, has: bool) -> (page: PageInfo)
        ensures
            page@ == (PageModel { has_image: has, ..self@ }),
    {
        let mut page = self;
        page.has_image = has;
        page
    }
}

/// A project: an edition with its pages.
#[derive(Debug, Clone, PartialEq)]
pub struct ProjectConfig {
    pub id: String,
    pub name: String,
    pub description: String,
    pub pages: Vec<PageInfo>,
    pub metadata: ProjectMetadata,
}

/// The mathematical value of a [`ProjectConfig`].
pub struct ProjectModel {
    pub id: Seq<char>,
    pub name: Seq<char>,
    pub description: Seq<char>,
    pub pages: Seq<PageModel>,
    pub metadata: ProjectMetadataModel,
}

impl View for ProjectConfig {
    type V = ProjectModel;

    open spec fn view(&self) -> ProjectModel {
        ProjectModel {
            id: self.id@,
            name: self.name@,
            description: self.description@,
            pages: pages_view(self.pages@),
            metadata: self.metadata@,
        }
    }
}

/// The values of a sequence of projects, in order.
pub open spec fn projects_view(projects: Seq<ProjectConfig>) -> Seq<ProjectModel> {
    Seq::new(projects.len(), |i: int| projects[i]@)
}

/// The path of a resource of the page `page` of the project `id`: the
/// project's directory, then `middle`, the page number and `end`.
pub open spec fn page_path(id: Seq<char>, middle: Seq<char>, page: u32, end: Seq<char>) -> Seq<
    char,
> {
    "projects/"@ + id + middle + decimal_text(page as nat) + end
}

/// Whether `i` is the place of the first page of `pages` with the number
/// `number`.
pub open spec fn first_page_at(pages: Seq<PageModel>, number: u32, i: int) -> bool {
    &&& 0 <= i < pages.len()
    &&& pages[i].number == number
    &&& forall|j: int| 0 <= j < i ==> (#[trigger] pages[j]).number != number
}

impl ProjectConfig {
    /// A project without description or pages, of which nothing is known.
    pub fn new(id: String, name: String) -> (project: ProjectConfig)
        ensures
            project@ == (ProjectModel {
                id: id@,
                name: name@,
                description: Seq::empty(),
                pages: Seq::empty(),
                metadata: ProjectMetadataModel::unknown(),
            }),
    {
        let project = ProjectConfig {
            id,
            name,
            description: String::new(),
            pages: Vec::new(),
            metadata: ProjectMetadata::default(),
        };
        proof {
            assert(pages_view(project.pages@) =~= Seq::empty());
        }
        project
    }

    /// The first page with the number `page_num`, if there is one.
    pub fn get_page(&self, page_num: u32) -> (found: Option<&PageInfo>)
        ensures
            match found {
                Some(page) => exists|i: int|
                    first_page_at(self@.pages, page_num, i) && page@ == self@.pages[i],
                None => forall|i: int|
                    0 <= i < self@.pages.len() ==> (#[trigger] self@.pages[i]).number != page_num,
            },
    {
        let mut i: usize = 0;
        while i < self.pages.len()
            invariant
                i <= self.pages.len(),
                forall|j: int| 0 <= j < i ==> (#[trigger] self@.pages[j]).number != page_num,
            decreases self.pages.len() - i,
        {
            if self.pages[i].number == page_num {
                proof {
                    assert(first_page_at(self@.pages, page_num, i as int));
                }
                return Some(&self.pages[i]);
            }
            i = i + 1;
        }
        None
    }

    /// The number of pages.
    pub fn get_page_count(&self) -> (count: usize)
        ensures
            count == self@.pages.len(),
    {
        self.pages.len()
    }

    fn path(&self, middle: &str, page_num: u32, end: &str) -> (path: String)
        ensures
            path@ == page_path(self.id@, middle@, page_num, end@),
    {
        let mut path = "projects/".to_string();
        push_text(&mut path, self.id.as_str());
        push_text(&mut path, middle);
        push_decimal(&mut path, page_num as u128);
        push_text(&mut path, end);
        path
    }

    /// Where the diplomatic transcription of the page `page_num` is found.
    pub fn get_diplomatic_path(&self, page_num: u32) -> (path: String)
        ensures
            path@ == page_path(self.id@, "/p"@, page_num, "_dip.xml"@),
    {
        self.path("/p", page_num, "_dip.xml")
    }

    /// Where the translation of the page `page_num` is found.
    pub fn get_translation_path(&self, page_num: u32) -> (path: String)
        ensures
            path@ == page_path(self.id@, "/p"@, page_num, "_trad.xml"@),
    {
        self.path("/p", page_num, "_trad.xml")
    }

    /// Where the image of the page `page_num` is found.
    pub fn get_image_path(&self, page_num: u32) -> (path: String)
        ensures
            path@ == page_path(self.id@, "/images/p"@, page_num, ".jpg"@),
    {
        self.path("/images/p", page_num, ".jpg")
    }
}

/// The page `number` of the built-in project: a folio, with a translation
/// for the first page only.
pub open spec fn folio(number: u32) -> PageModel {
    PageModel {
        number,
        label: "Folio "@ + decimal_text(number as nat),
        has_diplomatic: true,
        has_translation: number == 1,
        has_image: true,
    }
}

/// The built-in project: the thirteenth of the Greek Magical Papyri, in 25
/// folios.
pub open spec fn pgm_xiii() -> ProjectModel {
    ProjectModel {
        id: "PGM-XIII"@,
        name: "Papyri Graecae Magicae XIII"@,
        description: "Magical papyrus from the Greek Magical Papyri corpus, housed at the Rijksmuseum Amsterdam (AMS76)."@,
        pages: Seq::new(25, |i: int| folio((i + 1) as u32)),
        metadata: ProjectMetadataModel {
            author: "Anonymous"@,
            editor: "Robert W. Daniel"@,
            collection: "Papyri Graecae Magicae"@,
            institution: "Rijksmuseum Amsterdam"@,
            country: "Netherlands"@,
            language: "Ancient Greek (grc)"@,
            date_range: "1st c. BCE – 4th c. CE"@,
        },
    }
}

/// The projects that are built in.
pub struct ProjectRegistry;

impl ProjectRegistry {
    /// Every built-in project.
    pub fn get_all_projects() -> (projects: Vec<ProjectConfig>)
        ensures
            projects_view(projects@) == seq![pgm_xiii()],
    {
        let mut project = ProjectConfig::new(
            "PGM-XIII".to_string(),
            "Papyri Graecae Magicae XIII".to_string(),
        );
        project.description =
        "Magical papyrus from the Greek Magical Papyri corpus, housed at the Rijksmuseum Amsterdam (AMS76).".to_string();
        project.metadata = ProjectMetadata {
            author: "Anonymous".to_string(),
            editor: "Robert W. Daniel".to_string(),
            collection: "Papyri Graecae Magicae".to_string(),
            institution: "Rijksmuseum Amsterdam".to_string(),
            country: "Netherlands".to_string(),
            language: "Ancient Greek (grc)".to_string(),
            date_range: "1st c. BCE – 4th c. CE".to_string(),
        };
        let mut i: u32 = 1;
        proof {
            assert(pages_view(project.pages@).len() == project.pages@.len());
        }
        while i <= 25
            invariant
                1 <= i <= 26,
                project.pages@.len() == i - 1,
                forall|k: int| 0 <= k < i - 1 ==> (#[trigger] project.pages@[k])@ == folio((k + 1) as u32),
                project.id@ == "PGM-XIII"@,
                project.name@ == "Papyri Graecae Magicae XIII"@,
                project.description@ == pgm_xiii().description,
                project.metadata@ == pgm_xiii().metadata,
            decreases 26 - i,
        {
            let mut label = "Folio ".to_string();
            push_decimal(&mut label, i as u128);
            let page = PageInfo::new(i).with_label(label).with_translation(i == 1);
            project.pages.push(page);
            i = i + 1;
        }
        let mut projects: Vec<ProjectConfig> = Vec::new();
        proof {
            assert(pages_view(project.pages@) =~= pgm_xiii().pages);
        }
        projects.push(project);
        proof {
            assert(projects_view(projects@) =~= seq![pgm_xiii()]);
        }
        projects
    }

    /// The built-in project with the id `id`, if there is one.
    pub fn get_project(id: &str) -> (found: Option<ProjectConfig>)
        ensures
            match found {
                Some(project) => project@ == pgm_xiii() && id@ == pgm_xiii().id,
                None => id@ != pgm_xiii().id,
            },
    {
        let mut projects = ProjectRegistry::get_all_projects();
        proof {
            assert(projects_view(projects@).len() == projects@.len());
            assert(projects_view(projects@)[0] == projects@[0]@);
        }
        let project = projects.pop();
        match project {
            Some(p) => if p.id.as_str().eq(id) {
                Some(p)
            } else {
                None
            },
            None => None,
        }
    }

    /// The ids of the built-in projects.
    pub fn get_project_ids() -> (ids: Vec<String>)
        ensures
            ids@.len() == 1,
            ids@[0]@ == pgm_xiii().id,
    {
        let mut ids: Vec<String> = Vec::new();
        ids.push("PGM-XIII".to_string());
        ids
    }
}

} // verus!
